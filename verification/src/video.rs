//! Video frame reassembly: chunks and parity in, whole access units out.
//!
//! A producer splits each access unit into `chunk_count` chunks that fit one
//! datagram and, for frames of more than one chunk, adds XOR parity: shard `s`
//! of `parity_count` is the XOR of every chunk whose index is `s` modulo
//! `parity_count`. Each stripe can therefore give back exactly one lost chunk.
//!
//! What this module decides, and the producer does not:
//!
//! - when an incomplete frame is given up on (age on the receiver's clock, or
//!   pressure from newer frames);
//! - when the chunks of a frame that still waits are asked for again;
//! - that a frame completed once is complete for good, so late chunks for it
//!   are discarded rather than reopening it;
//! - that after any frame is lost the renderer is handed nothing until the
//!   next keyframe, because a decoder fed a frame whose reference is missing
//!   produces garbage that looks like a stream.

use crate::assembly::{Assembly, Meta, ParityShard};
use crate::clock::{Duration, Instant};
use crate::frame;
use crate::frame::{Frame, VideoFrame, Waiting};
use crate::keys::{ChunkKey, FrameId, FrameKey};
use crate::pending;
use crate::pending::{Entry, Pending};
use crate::reassembly;
use crate::reassembly::{AssemblerState, Expired, Refusal, Repair};
use crate::records::{GameCultMediaVideoAccessUnitRecord, GameCultMediaVideoParityShardRecord};
use crate::text;
use crate::text::{decimal, Comparison};
use std::collections::VecDeque;
use vstd::prelude::*;

verus! {

/// Why an incomplete frame was given up on.
#[derive(Clone, Copy, Debug, PartialEq, Eq, Structural)]
pub enum ExpiryReason {
    /// Older than `max_frame_age` on the receiver's clock.
    Aged,
    /// Pushed out by newer frames when `max_pending_frames` was reached.
    Evicted,
}

/// An incomplete frame that was given up on. Carries what a producer would
/// need to repair or skip it; emitting that as feedback is the receiver's job.
#[derive(Clone, Debug, PartialEq, Eq)]
pub struct ExpiredFrame {
    pub key: FrameKey,
    pub keyframe: bool,
    pub missing_chunk_keys: Vec<ChunkKey>,
    pub reason: ExpiryReason,
}

impl View for ExpiredFrame {
    type V = Expired;

    open spec fn view(&self) -> Expired {
        Expired {
            id: self.key@,
            keyframe: self.keyframe,
            missing: self.missing_chunk_keys@,
            reason: self.reason,
        }
    }
}

/// Chunks of a frame that still waits, to be asked for again.
#[derive(Clone, Debug, PartialEq, Eq)]
pub struct RepairRequest {
    pub key: FrameKey,
    pub missing_chunk_keys: Vec<ChunkKey>,
}

impl View for RepairRequest {
    type V = Repair;

    open spec fn view(&self) -> Repair {
        Repair { id: self.key@, missing: self.missing_chunk_keys@ }
    }
}

#[derive(Clone, Debug)]
pub struct VideoAssemblerOptions {
    /// How long an incomplete frame may wait for its remaining chunks or
    /// parity. Measured on this clock from the first chunk seen.
    pub max_frame_age: Duration,
    /// Incomplete frames held at once. The oldest is evicted to admit a newer
    /// one; a bound that errors instead of evicting is a fuse, not a limit.
    pub max_pending_frames: usize,
    /// Completed frames remembered so their late chunks are recognised as late.
    pub remembered_frames: usize,
    /// How long a frame waits before its missing chunks are first asked for.
    pub repair_after: Duration,
    /// How long to wait before asking again.
    pub repair_interval: Duration,
    /// How often the chunks of one frame are asked for.
    pub repair_attempts: u32,
}

impl Default for VideoAssemblerOptions {
    fn default() -> (options: Self)
        ensures
            options.max_frame_age.nanos == 250 * 1_000_000,
            options.max_pending_frames == 64,
            options.remembered_frames == 256,
            options.repair_after.nanos == 64 * 1_000_000,
            options.repair_interval.nanos == 32 * 1_000_000,
            options.repair_attempts == 3,
    {
        VideoAssemblerOptions {
            // A lost frame is repaired or replaced within a quarter second, or
            // not at all.
            max_frame_age: Duration::from_millis(250),
            max_pending_frames: 64,
            remembered_frames: 256,
            repair_after: Duration::from_millis(64),
            repair_interval: Duration::from_millis(32),
            repair_attempts: 3,
        }
    }
}

/// Counted from what happened, never from configuration. Counters wrap around.
#[derive(Clone, Copy, Debug, Default, PartialEq, Eq, Structural)]
pub struct VideoStats {
    pub completed: u64,
    pub repaired_chunks: u64,
    pub expired: u64,
    pub evicted: u64,
    /// Chunks or parity for frames already completed or given up on.
    pub late_discarded: u64,
    /// Complete frames withheld because a reference was lost and no keyframe
    /// has arrived since.
    pub awaiting_keyframe_discarded: u64,
}

/// Why a video record was refused.
#[derive(Clone, Debug, PartialEq, Eq)]
pub enum VideoError {
    /// The media contract does not allow the record.
    Invalid { reason: String },
    /// The record contradicts what its frame already said about itself.
    MixedMetadata { frame_id: u64 },
}

impl View for VideoError {
    type V = Refusal;

    open spec fn view(&self) -> Refusal {
        match self {
            VideoError::Invalid { reason } => Refusal::Invalid(reason@),
            VideoError::MixedMetadata { frame_id } => Refusal::MixedMetadata(*frame_id),
        }
    }
}

/// What a refusal says to a reader.
pub open spec fn refusal_text(refusal: Refusal) -> Seq<char> {
    match refusal {
        Refusal::Invalid(reason) => reason,
        Refusal::MixedMetadata(frame_id) => "frame "@ + text::decimal_digits(frame_id as nat)
            + " received mixed media metadata"@,
    }
}

impl VideoError {
    /// The refusal in words.
    pub fn message(&self) -> (message: String)
        ensures
            message@ == refusal_text(self@),
    {
        match self {
            VideoError::Invalid { reason } => reason.clone(),
            VideoError::MixedMetadata { frame_id } => {
                let mut message = "frame ".to_owned();
                message.append(decimal(*frame_id).as_str());
                message.append(" received mixed media metadata");
                message
            },
        }
    }
}

/// What an insertion returned, as values.
pub open spec fn outcome(result: Result<Option<VideoFrame>, VideoError>) -> Result<
    Option<Frame>,
    Refusal,
> {
    match result {
        Ok(frame) => Ok(frame_of(frame)),
        Err(error) => Err(error@),
    }
}

/// The frame handed on, if any, as a value.
pub open spec fn frame_of(frame: Option<VideoFrame>) -> Option<Frame> {
    match frame {
        Some(frame) => Some(frame@),
        None => None,
    }
}

/// What the media contract said of a record, as a value.
pub open spec fn verdict_of(verdict: Result<(), String>) -> Result<(), Seq<char>> {
    match verdict {
        Ok(done) => Ok(done),
        Err(reason) => Err(reason@),
    }
}

/// Puts video frames back together.
pub struct VideoAssembler {
    options: VideoAssemblerOptions,
    pending: Pending,
    remembered: VecDeque<FrameKey>,
    waiting_for_keyframe: bool,
    stats: VideoStats,
    evicted: Vec<ExpiredFrame>,
}

impl View for VideoAssembler {
    type V = AssemblerState;

    closed spec fn view(&self) -> AssemblerState {
        AssemblerState {
            options: self.options,
            pending: self.pending@,
            remembered: self.remembered@.map_values(|key: FrameKey| key@),
            waiting_for_keyframe: self.waiting_for_keyframe,
            stats: self.stats,
            evicted: self.evicted@.map_values(|frame: ExpiredFrame| frame@),
        }
    }
}

impl Default for VideoAssembler {
    fn default() -> (assembler: Self)
        ensures
            assembler.wf(),
            assembler@ == AssemblerState::initial(assembler@.options),
            assembler@.options.max_frame_age.nanos == 250 * 1_000_000,
            assembler@.options.max_pending_frames == 64,
            assembler@.options.remembered_frames == 256,
            assembler@.options.repair_after.nanos == 64 * 1_000_000,
            assembler@.options.repair_interval.nanos == 32 * 1_000_000,
            assembler@.options.repair_attempts == 3,
    {
        Self::new(VideoAssemblerOptions::default())
    }
}

impl VideoAssembler {
    /// The parts fit together, and what they stand for is valid.
    pub closed spec fn wf(&self) -> bool {
        &&& self.pending.wf()
        &&& self@.valid()
    }

    /// An assembler in good order stands for a valid state.
    pub broadcast proof fn lemma_wf_is_valid(&self)
        ensures
            #[trigger] self.wf() ==> self@.valid(),
    {
    }

    pub fn new(options: VideoAssemblerOptions) -> (assembler: Self)
        ensures
            assembler.wf(),
            assembler@ == AssemblerState::initial(options),
    {
        let assembler = VideoAssembler {
            options,
            pending: Pending::new(),
            remembered: VecDeque::new(),
            // A decoder has nothing to build on until the first keyframe.
            waiting_for_keyframe: true,
            stats: VideoStats {
                completed: 0,
                repaired_chunks: 0,
                expired: 0,
                evicted: 0,
                late_discarded: 0,
                awaiting_keyframe_discarded: 0,
            },
            evicted: Vec::new(),
        };
        assert(assembler@ =~= AssemblerState::initial(options));
        assembler
    }

    /// How many incomplete frames are held.
    pub fn pending_frames(&self) -> (count: usize)
        requires
            self.wf(),
        ensures
            count == self@.pending.len(),
    {
        self.pending.len()
    }

    /// The names of the chunks a waiting frame lacks; none if it is not
    /// waiting.
    pub fn missing_chunk_keys(&self, key: &FrameKey) -> (missing: Vec<ChunkKey>)
        requires
            self.wf(),
        ensures
            missing@ == (if self@.pending.contains_key(key@) {
                self@.pending[key@].missing(key.frame_id)
            } else {
                Seq::empty()
            }),
    {
        match self.pending.find(key) {
            Some(i) => self.pending.at(i).assembly.missing_chunk_keys(key.frame_id),
            None => Vec::new(),
        }
    }

    /// Whether nothing can be decoded until the next keyframe.
    pub fn waiting_for_keyframe(&self) -> (waiting: bool)
        ensures
            waiting == self@.waiting_for_keyframe,
    {
        self.waiting_for_keyframe
    }

    pub fn stats(&self) -> (stats: VideoStats)
        ensures
            stats == self@.stats,
    {
        self.stats
    }

    /// Hands over the frames that newer ones have pushed out since the last
    /// time.
    pub fn take_evicted(&mut self) -> (evicted: Vec<ExpiredFrame>)
        requires
            old(self).wf(),
        ensures
            final(self).wf(),
            final(self)@ == (AssemblerState { evicted: Seq::empty(), ..old(self)@ }),
            evicted@.map_values(|frame: ExpiredFrame| frame@) == old(self)@.evicted,
    {
        let mut evicted: Vec<ExpiredFrame> = Vec::new();
        std::mem::swap(&mut evicted, &mut self.evicted);
        assert(self@.evicted =~= Seq::empty());
        evicted
    }

    /// Whether a frame was completed or given up on, as far as is remembered.
    fn remembers(&self, key: &FrameKey) -> (known: bool)
        ensures
            known == self@.remembered.contains(key@),
    {
        let mut i: usize = 0;
        while i < self.remembered.len()
            invariant
                i <= self.remembered@.len(),
                forall|k: int| 0 <= k < i ==> (#[trigger] self.remembered@[k])@ != key@,
            decreases self.remembered@.len() - i,
        {
            if let Comparison::Same = self.remembered[i].compare(key) {
                assert(self@.remembered[i as int] == key@);
                return true;
            }
            i = i + 1;
        }
        proof {
            if self@.remembered.contains(key@) {
                let k = choose|k: int|
                    0 <= k < self@.remembered.len() && self@.remembered[k] == key@;
                assert(self.remembered@[k]@ == key@);
            }
        }
        false
    }

    fn remember(&mut self, key: FrameKey)
        ensures
            final(self)@ == (AssemblerState {
                remembered: old(self)@.remember(seq![key@]),
                ..old(self)@
            }),
            final(self).pending == old(self).pending,
    {
        let ghost id = key@;
        let ghost all = self@.remembered + seq![id];
        self.remembered.push_back(key);
        assert(self@.remembered =~= all);
        let ghost mut dropped: nat = 0;
        assert(all.skip(0) =~= all);
        while self.remembered.len() > self.options.remembered_frames
            invariant
                dropped <= all.len(),
                self@.remembered == all.skip(dropped as int),
                dropped > 0 ==> all.len() - dropped >= self.options.remembered_frames,
                self@ == (AssemblerState { remembered: self@.remembered, ..old(self)@ }),
                self.pending == old(self).pending,
            decreases self.remembered@.len(),
        {
            let ghost held = self@.remembered;
            assert(held.len() == self.remembered@.len());
            let _ = self.remembered.pop_front();
            assert(self@.remembered =~= held.skip(1));
            proof {
                dropped = dropped + 1;
            }
            assert(self@.remembered =~= all.skip(dropped as int));
        }
    }

    /// Takes the frame at a place out of those that wait, remembers it, and
    /// says what it lacked.
    fn give_up(&mut self, i: usize, reason: ExpiryReason) -> (gone: ExpiredFrame)
        requires
            old(self).wf(),
            i < old(self).pending.listing().len(),
        ensures
            final(self).wf(),
            ({
                let id = old(self).pending.listing()[i as int].0;
                let before = old(self)@;
                &&& before.pending.contains_key(id)
                &&& before.pending[id] == old(self).pending.listing()[i as int].1
                &&& gone@ == reassembly::given_up(id, before.pending[id], reason)
                &&& final(self).pending.listing() == old(self).pending.listing().remove(i as int)
                &&& final(self)@ == AssemblerState {
                    pending: before.pending.remove(id),
                    remembered: before.remember(seq![id]),
                    waiting_for_keyframe: true,
                    stats: match reason {
                        ExpiryReason::Aged => VideoStats {
                            expired: before.stats.expired.wrapping_add(1),
                            ..before.stats
                        },
                        ExpiryReason::Evicted => VideoStats {
                            evicted: before.stats.evicted.wrapping_add(1),
                            ..before.stats
                        },
                    },
                    ..before
                }
            }),
    {
        let ghost before = self@;
        let Entry { key, assembly } = self.pending.remove(i);
        let ghost id = key@;
        self.remember(key.duplicate());
        match reason {
            ExpiryReason::Aged => {
                self.stats.expired = self.stats.expired.wrapping_add(1);
            },
            ExpiryReason::Evicted => {
                self.stats.evicted = self.stats.evicted.wrapping_add(1);
            },
        }
        // Whatever depended on this frame cannot be decoded either.
        self.waiting_for_keyframe = true;
        let missing_chunk_keys = assembly.missing_chunk_keys(key.frame_id);
        let gone = ExpiredFrame {
            keyframe: assembly.meta.keyframe,
            missing_chunk_keys,
            reason,
            key,
        };
        proof {
            reassembly::lemma_still_valid_without(before, self@, id);
        }
        gone
    }

    /// Finds or opens the frame a record belongs to, refusing metadata that
    /// contradicts what the frame already said about itself. Returns nothing
    /// when the record was discarded rather than refused.
    fn admit_record(&mut self, key: &FrameKey, meta: Meta, now: Instant) -> (place: Result<
        Option<usize>,
        VideoError,
    >)
        requires
            old(self).wf(),
            old(self)@.options.max_pending_frames > 0,
        ensures
            final(self).pending.wf(),
            match place {
                Ok(Some(i)) => {
                    &&& !old(self)@.remembered.contains(key@)
                    &&& !old(self)@.contradicts(key@, meta@)
                    &&& final(self)@ == old(self)@.opened(key@, meta@, now)
                    &&& i < final(self).pending.listing().len()
                    &&& final(self).pending.listing()[i as int] == (
                        key@,
                        final(self)@.pending[key@],
                    )
                },
                Ok(None) => {
                    &&& old(self)@.remembered.contains(key@)
                    &&& final(self)@ == old(self)@.late()
                },
                Err(error) => {
                    &&& !old(self)@.remembered.contains(key@)
                    &&& old(self)@.contradicts(key@, meta@)
                    &&& final(self)@ == old(self)@
                    &&& error@ == Refusal::MixedMetadata(key@.frame_id)
                },
            },
    {
        if self.remembers(key) {
            self.stats.late_discarded = self.stats.late_discarded.wrapping_add(1);
            return Ok(None);
        }
        match self.pending.find(key) {
            Some(i) => {
                if self.pending.at(i).assembly.meta.agrees_with(&meta) {
                    Ok(Some(i))
                } else {
                    Err(VideoError::MixedMetadata { frame_id: key.frame_id })
                }
            },
            None => {
                if self.pending.len() >= self.options.max_pending_frames {
                    let stalest = self.pending.stalest();
                    proof {
                        let id = choose|id: FrameId| reassembly::is_stalest(self@.pending, id);
                        reassembly::lemma_stalest_is_unique(
                            self@.pending,
                            id,
                            self.pending.listing()[stalest as int].0,
                        );
                    }
                    let gone = self.give_up(stalest, ExpiryReason::Evicted);
                    self.evicted.push(gone);
                    assert(self@.evicted =~= old(self)@.evicted.push(gone@));
                    assert(self@ == old(self)@.with_room());
                }
                let i = self.pending.insert(key.duplicate(), Assembly::new(meta, now));
                assert(self@ == old(self)@.opened(key@, meta@, now));
                Ok(Some(i))
            },
        }
    }

    /// Repairs a frame to which a record was added, and hands it on if that
    /// makes it complete; otherwise it goes on waiting.
    fn try_finish(&mut self, key: FrameKey, assembly: Assembly) -> (frame: Option<VideoFrame>)
        requires
            old(self).pending.wf(),
            !old(self)@.pending.contains_key(key@),
            assembly@.valid(),
        ensures
            final(self).pending.wf(),
            (final(self)@, frame_of(frame)) == old(self)@.settled(key@, assembly@),
    {
        let mut assembly = assembly;
        if !assembly.is_complete() {
            let _ = assembly.repair();
        }
        if !assembly.is_complete() {
            let _ = self.pending.insert(key, assembly);
            return None;
        }
        let ghost id = key@;
        let ghost whole = assembly@;
        assert(self@.pending.remove(id) =~= self@.pending);
        self.remember(key.duplicate());
        self.stats.completed = self.stats.completed.wrapping_add(1);
        self.stats.repaired_chunks = self.stats.repaired_chunks.wrapping_add(
            assembly.repaired as u64,
        );
        let frame = assembly.into_frame(&key);
        if self.waiting_for_keyframe {
            if !frame.keyframe {
                self.stats.awaiting_keyframe_discarded =
                self.stats.awaiting_keyframe_discarded.wrapping_add(1);
                return None;
            }
            self.waiting_for_keyframe = false;
        }
        Some(frame)
    }

    /// Admits one chunk. `verdict` is what the media contract says of it.
    /// Returns the frame if this chunk completed it.
    pub fn insert_chunk(
        &mut self,
        record: GameCultMediaVideoAccessUnitRecord,
        verdict: Result<(), String>,
        now: Instant,
    ) -> (result: Result<Option<VideoFrame>, VideoError>)
        requires
            old(self).wf(),
            verdict is Ok ==> old(self)@.options.max_pending_frames > 0,
        ensures
            final(self).wf(),
            (final(self)@, outcome(result)) == old(self)@.insert_chunk(
                record@,
                verdict_of(verdict),
                now,
            ),
    {
        proof {
            reassembly::lemma_insert_chunk_valid(self@, record@, verdict_of(verdict), now);
        }
        if let Err(reason) = verdict {
            return Err(VideoError::Invalid { reason });
        }
        let key = FrameKey {
            stream_id: record.stream_id.clone(),
            session_id: record.session_id.clone(),
            frame_id: record.frame_id,
        };
        let meta = Meta::from_chunk(&record);
        let place = match self.admit_record(&key, meta, now) {
            Ok(Some(place)) => place,
            Ok(None) => {
                return Ok(None);
            },
            Err(error) => {
                return Err(error);
            },
        };
        if self.pending.at(place).assembly.chunks.contains(record.chunk_index) {
            // A duplicate is not damage. The producer resent, or the network
            // did; either way the chunk on hand is the same bytes.
            return Ok(None);
        }
        let ghost open = self@;
        let Entry { key, mut assembly } = self.pending.remove(place);
        let ghost held = assembly@;
        let ghost payload = record.payload@;
        proof {
            assembly.lemma_counts();
            frame::lemma_own_chunks_grow(held, record.chunk_index, payload);
        }
        assembly.chunks.insert(record.chunk_index, record.payload);
        assert(assembly@.chunks =~= held.chunks.insert(record@.index, payload));
        let ghost grown = assembly@;
        proof {
            assert(grown.own_chunks() == (Waiting { chunks: grown.chunks, ..held }).own_chunks());
            reassembly::lemma_settled_without(open, self@, key@, grown);
        }
        Ok(self.try_finish(key, assembly))
    }

    /// Admits one parity shard. `verdict` is what the media contract says of
    /// it. Returns the frame if the shard let it complete.
    pub fn insert_parity(
        &mut self,
        record: GameCultMediaVideoParityShardRecord,
        verdict: Result<(), String>,
        now: Instant,
    ) -> (result: Result<Option<VideoFrame>, VideoError>)
        requires
            old(self).wf(),
            verdict is Ok ==> old(self)@.options.max_pending_frames > 0,
        ensures
            final(self).wf(),
            (final(self)@, outcome(result)) == old(self)@.insert_parity(
                record@,
                verdict_of(verdict),
                now,
            ),
    {
        proof {
            reassembly::lemma_insert_parity_valid(self@, record@, verdict_of(verdict), now);
        }
        if let Err(reason) = verdict {
            return Err(VideoError::Invalid { reason });
        }
        let key = FrameKey {
            stream_id: record.stream_id.clone(),
            session_id: record.session_id.clone(),
            frame_id: record.frame_id,
        };
        let meta = Meta::from_parity(&record);
        let place = match self.admit_record(&key, meta, now) {
            Ok(Some(place)) => place,
            Ok(None) => {
                return Ok(None);
            },
            Err(error) => {
                return Err(error);
            },
        };
        let ghost open = self@;
        let Entry { key, mut assembly } = self.pending.remove(place);
        let ghost held = assembly@;
        let shard = ParityShard {
            payload: record.payload,
            parity_count: record.parity_count,
            chunk_payload_bytes: record.chunk_payload_bytes,
            last_chunk_payload_bytes: record.last_chunk_payload_bytes,
        };
        assembly.parity.insert(record.parity_index, shard);
        assert(assembly@.parity =~= held.parity.insert(record@.stripe, record@.shard));
        let ghost grown = assembly@;
        proof {
            assert(grown.own_chunks() == held.own_chunks());
            reassembly::lemma_settled_without(open, self@, key@, grown);
        }
        Ok(self.try_finish(key, assembly))
    }

    /// Gives up on frames older than `max_frame_age`, in frame order. Call
    /// from the receive loop; the assembler has no clock of its own.
    pub fn expire(&mut self, now: Instant) -> (expired: Vec<ExpiredFrame>)
        requires
            old(self).wf(),
        ensures
            final(self).wf(),
            old(self)@.expires(
                now,
                expired@.map_values(|frame: ExpiredFrame| frame@),
                final(self)@,
            ),
    {
        let ghost start = self@;
        let ghost listing = self.pending.listing();
        let ghost mut front = Seq::<(FrameId, Waiting)>::empty();
        let ghost mut done: int = 0;
        let ghost mut ids = Seq::<FrameId>::empty();
        let mut expired: Vec<ExpiredFrame> = Vec::new();
        let mut i: usize = 0;
        proof {
            assert(front + listing.skip(0) =~= listing);
            assert(start.pending.remove_keys(ids.to_set()) =~= start.pending);
            assert(start.remembered + ids =~= start.remembered);
        }
        while i < self.pending.len()
            invariant
                self.wf(),
                start == old(self)@,
                start.valid(),
                pending::in_order(listing),
                start.pending == pending::map_of(listing),
                0 <= done <= listing.len(),
                front.len() == i,
                self.pending.listing() == front + listing.skip(done),
                forall|a: int|
                    0 <= a < done && start.aged((#[trigger] listing[a]).0, now) ==> ids.contains(
                        listing[a].0,
                    ),
                forall|b: int|
                    0 <= b < ids.len() ==> exists|a: int|
                        0 <= a < done && #[trigger] listing[a].0 == #[trigger] ids[b]
                            && start.aged(ids[b], now),
                reassembly::ascending(ids),
                ids.len() == expired@.len(),
                forall|b: int|
                    0 <= b < ids.len() ==> (#[trigger] expired@[b])@ == reassembly::given_up(
                        ids[b],
                        start.pending[ids[b]],
                        ExpiryReason::Aged,
                    ),
                self@ == (AssemblerState {
                    pending: start.pending.remove_keys(ids.to_set()),
                    remembered: start.remember(ids),
                    waiting_for_keyframe: start.waiting_for_keyframe || ids.len() > 0,
                    stats: VideoStats {
                        expired: ((start.stats.expired + ids.len()) % 0x1_0000_0000_0000_0000) as u64,
                        ..start.stats
                    },
                    ..start
                }),
            decreases self.pending.listing().len() - i,
        {
            let first_seen = self.pending.at(i).assembly.first_seen;
            let ghost at = listing[done];
            proof {
                assert(self.pending.listing()[i as int] == at);
                pending::lemma_entry(listing, done);
            }
            if now.duration_since(first_seen).nanos >= self.options.max_frame_age.nanos {
                let ghost before = self@;
                let gone = self.give_up(i, ExpiryReason::Aged);
                expired.push(gone);
                proof {
                    assert(before.pending[at.0] == at.1);
                    assert((front + listing.skip(done)).remove(i as int) =~= front
                        + listing.skip(done + 1));
                    reassembly::lemma_newest_adds_up(
                        start.remembered,
                        ids,
                        at.0,
                        start.options.remembered_frames as nat,
                    );
                    assert(start.pending.remove_keys(ids.to_set()).remove(at.0)
                        =~= start.pending.remove_keys(ids.push(at.0).to_set())) by {
                        ids.lemma_push_to_set_commute(at.0);
                    }
                    let more = ids.push(at.0);
                    assert forall|b: int, c: int|
                        0 <= b < c < more.len() implies #[trigger] more[b].before(
                        #[trigger] more[c],
                    ) by {
                        if c == ids.len() {
                            let a = choose|a: int|
                                0 <= a < done && #[trigger] listing[a].0 == ids[b] && start.aged(
                                    ids[b],
                                    now,
                                );
                            assert(listing[a].0.before(listing[done].0));
                        }
                    }
                    assert forall|b: int| 0 <= b < more.len() implies exists|a: int|
                        0 <= a < done + 1 && #[trigger] listing[a].0 == #[trigger] more[b]
                            && start.aged(more[b], now) by {
                        if b < ids.len() {
                            let a = choose|a: int|
                                0 <= a < done && #[trigger] listing[a].0 == ids[b] && start.aged(
                                    ids[b],
                                    now,
                                );
                            assert(listing[a].0 == more[b]);
                        } else {
                            assert(listing[done].0 == more[b]);
                        }
                    }
                    assert forall|a: int|
                        0 <= a < done + 1 && start.aged(
                            (#[trigger] listing[a]).0,
                            now,
                        ) implies more.contains(listing[a].0) by {
                        if a < done {
                            let b = choose|b: int| 0 <= b < ids.len() && ids[b] == listing[a].0;
                            assert(more[b] == listing[a].0);
                        } else {
                            assert(more[ids.len() as int] == listing[a].0);
                        }
                    }
                    ids = more;
                    done = done + 1;
                }
            } else {
                proof {
                    assert(front + listing.skip(done) =~= front.push(at) + listing.skip(
                        done + 1,
                    ));
                    front = front.push(at);
                    done = done + 1;
                }
                i = i + 1;
            }
        }
        proof {
            assert(done == listing.len());
            let gone = expired@.map_values(|frame: ExpiredFrame| frame@);
            assert(gone.map_values(|frame: Expired| frame.id) =~= ids);
            assert forall|id: FrameId| #[trigger] ids.contains(id) <==> start.aged(id, now) by {
                if start.aged(id, now) {
                    let a = choose|a: int| 0 <= a < listing.len() && #[trigger] listing[a].0 == id;
                    assert(ids.contains(listing[a].0));
                }
            }
        }
        expired
    }

    /// Names the chunks that waiting frames lack, in frame order, for each
    /// frame whose turn it is to be asked for.
    pub fn repair_requests(&mut self, now: Instant) -> (requests: Vec<RepairRequest>)
        requires
            old(self).wf(),
        ensures
            final(self).wf(),
            old(self)@.asks_for(
                now,
                requests@.map_values(|request: RepairRequest| request@),
                final(self)@,
            ),
    {
        let ghost start = self@;
        let ghost listing = self.pending.listing();
        let ghost mut ids = Seq::<FrameId>::empty();
        let mut requests: Vec<RepairRequest> = Vec::new();
        let count = self.pending.len();
        let mut i: usize = 0;
        while i < count
            invariant
                self.pending.wf(),
                start == old(self)@,
                start.valid(),
                pending::in_order(listing),
                start.pending == pending::map_of(listing),
                count == listing.len(),
                i <= count,
                self.pending.listing().len() == count,
                forall|a: int|
                    0 <= a < count ==> #[trigger] self.pending.listing()[a] == (if a < i && start.due(
                        listing[a].0,
                        now,
                    ) {
                        (listing[a].0, pending::asked_at(listing[a].1, now))
                    } else {
                        listing[a]
                    }),
                self@ == (AssemblerState { pending: self@.pending, ..start }),
                forall|a: int|
                    0 <= a < i && start.due((#[trigger] listing[a]).0, now) ==> ids.contains(
                        listing[a].0,
                    ),
                forall|b: int|
                    0 <= b < ids.len() ==> exists|a: int|
                        0 <= a < i && #[trigger] listing[a].0 == #[trigger] ids[b] && start.due(
                            ids[b],
                            now,
                        ),
                reassembly::ascending(ids),
                ids.len() == requests@.len(),
                forall|b: int|
                    0 <= b < ids.len() ==> (#[trigger] requests@[b])@ == (Repair {
                        id: ids[b],
                        missing: start.pending[ids[b]].missing(ids[b].frame_id),
                    }),
            decreases count - i,
        {
            let ghost at = listing[i as int];
            proof {
                assert(self.pending.listing()[i as int] == at);
                pending::lemma_entry(listing, i as int);
            }
            let entry = self.pending.at(i);
            let asks = entry.assembly.asks;
            let ripe = if asks == 0 {
                now.duration_since(entry.assembly.first_seen).nanos
                    >= self.options.repair_after.nanos
            } else {
                now.duration_since(entry.assembly.last_ask).nanos
                    >= self.options.repair_interval.nanos
            };
            let mut due = false;
            if asks < self.options.repair_attempts && ripe {
                let missing_chunk_keys = entry.assembly.missing_chunk_keys(entry.key.frame_id);
                if missing_chunk_keys.len() > 0 {
                    due = true;
                    requests.push(RepairRequest { key: entry.key.duplicate(), missing_chunk_keys });
                }
            }
            assert(due == start.due(at.0, now));
            if due {
                self.pending.mark_asked(i, now);
                proof {
                    let more = ids.push(at.0);
                    assert forall|b: int, c: int|
                        0 <= b < c < more.len() implies #[trigger] more[b].before(
                        #[trigger] more[c],
                    ) by {
                        if c == ids.len() {
                            let a = choose|a: int|
                                0 <= a < i && #[trigger] listing[a].0 == ids[b] && start.due(
                                    ids[b],
                                    now,
                                );
                            assert(listing[a].0.before(listing[i as int].0));
                        }
                    }
                    assert forall|b: int| 0 <= b < more.len() implies exists|a: int|
                        0 <= a < i + 1 && #[trigger] listing[a].0 == #[trigger] more[b]
                            && start.due(more[b], now) by {
                        if b < ids.len() {
                            let a = choose|a: int|
                                0 <= a < i && #[trigger] listing[a].0 == ids[b] && start.due(
                                    ids[b],
                                    now,
                                );
                            assert(listing[a].0 == more[b]);
                        } else {
                            assert(listing[i as int].0 == more[b]);
                        }
                    }
                    assert forall|a: int|
                        0 <= a < i + 1 && start.due(
                            (#[trigger] listing[a]).0,
                            now,
                        ) implies more.contains(listing[a].0) by {
                        if a < i {
                            let b = choose|b: int| 0 <= b < ids.len() && ids[b] == listing[a].0;
                            assert(more[b] == listing[a].0);
                        } else {
                            assert(more[ids.len() as int] == listing[a].0);
                        }
                    }
                    ids = more;
                }
            }
            i = i + 1;
        }
        proof {
            let asked = requests@.map_values(|request: RepairRequest| request@);
            assert(asked.map_values(|ask: Repair| ask.id) =~= ids);
            assert forall|id: FrameId| #[trigger] ids.contains(id) <==> start.due(id, now) by {
                if start.due(id, now) {
                    let a = choose|a: int| 0 <= a < listing.len() && #[trigger] listing[a].0 == id;
                    assert(ids.contains(listing[a].0));
                }
            }
            assert forall|id: FrameId|
                self@.pending.contains_key(id) <==> start.pending.contains_key(id) by {
                if pending::listed(self.pending.listing(), id) {
                    let a = choose|a: int|
                        0 <= a < self.pending.listing().len()
                            && #[trigger] self.pending.listing()[a].0 == id;
                    assert(listing[a].0 == id);
                }
                if pending::listed(listing, id) {
                    let a = choose|a: int| 0 <= a < listing.len() && #[trigger] listing[a].0 == id;
                    assert(self.pending.listing()[a].0 == id);
                }
            }
            assert forall|id: FrameId| self@.pending.contains_key(id) implies self@.pending[id]
                == start.asked(now)[id] by {
                let a = choose|a: int|
                    0 <= a < self.pending.listing().len()
                        && #[trigger] self.pending.listing()[a].0 == id;
                assert(listing[a].0 == id);
                pending::lemma_entry(self.pending.listing(), a);
                pending::lemma_entry(listing, a);
            }
            assert(self@.pending =~= start.asked(now));
            reassembly::lemma_asked_valid(start, now);
        }
        requests
    }
}

/// What is reported of a frame given up on, of chunks to be asked for and of an
/// insertion is read as it stands.
pub proof fn law_what_reassembly_returns_is_read_as_it_stands(
    gone: ExpiredFrame,
    ask: RepairRequest,
    frame: VideoFrame,
    reason: String,
    frame_id: u64,
)
    ensures
        gone@.id == gone.key@,
        gone@.keyframe == gone.keyframe,
        gone@.missing == gone.missing_chunk_keys@,
        gone@.reason == gone.reason,
        ask@.id == ask.key@,
        ask@.missing == ask.missing_chunk_keys@,
        outcome(Ok(Some(frame))) == Ok::<Option<Frame>, Refusal>(Some(frame@)),
        outcome(Ok(None)) == Ok::<Option<Frame>, Refusal>(None),
        outcome(Err(VideoError::Invalid { reason })) == Err::<Option<Frame>, Refusal>(
            Refusal::Invalid(reason@),
        ),
        outcome(Err(VideoError::MixedMetadata { frame_id })) == Err::<Option<Frame>, Refusal>(
            Refusal::MixedMetadata(frame_id),
        ),
        verdict_of(Ok(())) == Ok::<(), Seq<char>>(()),
        verdict_of(Err(reason)) == Err::<(), Seq<char>>(reason@),
{
}

/// A refusal says why: in the media contract's own words, or which frame was
/// contradicted.
pub proof fn law_a_refusal_says_why(reason: Seq<char>, frame_id: u64)
    ensures
        refusal_text(Refusal::Invalid(reason)) == reason,
        refusal_text(Refusal::MixedMetadata(frame_id)) == "frame "@ + text::decimal_digits(
            frame_id as nat,
        ) + " received mixed media metadata"@,
{
}

} // verus!
