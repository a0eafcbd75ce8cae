//! What video reassembly does, step by step, and what it promises.

use crate::clock::Instant;
use crate::frame;
use crate::frame::{Frame, Waiting};
use crate::keys;
use crate::keys::{ChunkKey, FrameId};
use crate::records::{Chunk, FrameMeta, Parity};
use crate::video::{ExpiryReason, VideoAssemblerOptions, VideoStats};
use vstd::prelude::*;

verus! {

/// A frame that was given up on.
#[verifier::ext_equal]
pub struct Expired {
    pub id: FrameId,
    pub keyframe: bool,
    pub missing: Seq<ChunkKey>,
    pub reason: ExpiryReason,
}

/// Chunks of a waiting frame, asked for again.
#[verifier::ext_equal]
pub struct Repair {
    pub id: FrameId,
    pub missing: Seq<ChunkKey>,
}

/// Why a record was refused.
#[verifier::ext_equal]
pub enum Refusal {
    /// The media contract does not allow it.
    Invalid(Seq<char>),
    /// It contradicts what its frame already said about itself.
    MixedMetadata(u64),
}

/// Everything reassembly remembers.
#[verifier::ext_equal]
pub struct AssemblerState {
    pub options: VideoAssemblerOptions,
    /// The frames that are still waiting.
    pub pending: Map<FrameId, Waiting>,
    /// The frames completed or given up on last, oldest first.
    pub remembered: Seq<FrameId>,
    /// Nothing can be decoded until the next keyframe.
    pub waiting_for_keyframe: bool,
    pub stats: VideoStats,
    /// The frames pushed out by newer ones that nobody has asked about yet.
    pub evicted: Seq<Expired>,
}

/// `id` has waited longest; of several that have, it comes first.
pub open spec fn is_stalest(pending: Map<FrameId, Waiting>, id: FrameId) -> bool {
    &&& pending.contains_key(id)
    &&& forall|other: FrameId| #[trigger]
        pending.contains_key(other) && other != id ==> {
            ||| pending[id].first_seen.nanos < pending[other].first_seen.nanos
            ||| pending[id].first_seen == pending[other].first_seen && id.before(other)
        }
}

/// Only one frame can have waited longest.
pub proof fn lemma_stalest_is_unique(pending: Map<FrameId, Waiting>, one: FrameId, two: FrameId)
    requires
        is_stalest(pending, one),
        is_stalest(pending, two),
    ensures
        one == two,
{
    if one != two {
        if one.before(two) {
            keys::lemma_frame_asymmetric(one, two);
        }
    }
}

/// The last `limit` of a sequence.
pub open spec fn newest(ids: Seq<FrameId>, limit: nat) -> Seq<FrameId> {
    if ids.len() > limit {
        ids.skip(ids.len() - limit)
    } else {
        ids
    }
}

/// What is left on record of a frame that is given up on.
pub open spec fn given_up(id: FrameId, waiting: Waiting, reason: ExpiryReason) -> Expired {
    Expired {
        id,
        keyframe: waiting.meta.keyframe,
        missing: waiting.missing(id.frame_id),
        reason,
    }
}

impl AssemblerState {
    /// Nothing has arrived yet. A decoder has nothing to build on until the
    /// first keyframe.
    pub open spec fn initial(options: VideoAssemblerOptions) -> AssemblerState {
        AssemblerState {
            options,
            pending: Map::empty(),
            remembered: Seq::empty(),
            waiting_for_keyframe: true,
            stats: VideoStats {
                completed: 0,
                repaired_chunks: 0,
                expired: 0,
                evicted: 0,
                late_discarded: 0,
                awaiting_keyframe_discarded: 0,
            },
            evicted: Seq::empty(),
        }
    }

    /// What holds between any two steps: no more frames wait, and no more are
    /// remembered, than the options allow; a frame that waits is incomplete,
    /// was not finished before as far as is remembered, and was not asked for
    /// too often.
    pub open spec fn valid(self) -> bool {
        &&& self.pending.dom().finite()
        &&& self.pending.len() <= self.options.max_pending_frames
        &&& self.remembered.len() <= self.options.remembered_frames
        &&& forall|id: FrameId| #[trigger]
            self.pending.contains_key(id) ==> {
                &&& !self.remembered.contains(id)
                &&& self.pending[id].valid()
                &&& !self.pending[id].complete()
                &&& self.pending[id].asks <= self.options.repair_attempts
            }
    }

    /// The frames on record once some more were completed or given up on.
    pub open spec fn remember(self, ids: Seq<FrameId>) -> Seq<FrameId> {
        newest(self.remembered + ids, self.options.remembered_frames as nat)
    }

    /// A record for a frame already completed or given up on is discarded and
    /// counted.
    pub open spec fn late(self) -> AssemblerState {
        AssemblerState {
            stats: VideoStats {
                late_discarded: self.stats.late_discarded.wrapping_add(1),
                ..self.stats
            },
            ..self
        }
    }

    /// The bound on waiting frames evicts, it never refuses: the frame that
    /// has waited longest makes room.
    pub open spec fn with_room(self) -> AssemblerState {
        if self.pending.len() >= self.options.max_pending_frames {
            let id = choose|id: FrameId| is_stalest(self.pending, id);
            AssemblerState {
                pending: self.pending.remove(id),
                remembered: self.remember(seq![id]),
                waiting_for_keyframe: true,
                stats: VideoStats {
                    evicted: self.stats.evicted.wrapping_add(1),
                    ..self.stats
                },
                evicted: self.evicted.push(
                    given_up(id, self.pending[id], ExpiryReason::Evicted),
                ),
                ..self
            }
        } else {
            self
        }
    }

    /// The frame is among those that wait, after making room for it where it
    /// is new.
    pub open spec fn opened(self, id: FrameId, meta: FrameMeta, now: Instant) -> AssemblerState {
        if self.pending.contains_key(id) {
            self
        } else {
            let roomy = self.with_room();
            AssemblerState {
                pending: roomy.pending.insert(id, Waiting::opened(meta, now)),
                ..roomy
            }
        }
    }

    /// The waiting frame has said something else about itself before.
    pub open spec fn contradicts(self, id: FrameId, meta: FrameMeta) -> bool {
        self.pending.contains_key(id) && self.pending[id].meta != meta
    }

    /// `waiting` takes the place of what was held of the frame.
    pub open spec fn holding(self, id: FrameId, waiting: Waiting) -> AssemblerState {
        AssemblerState { pending: self.pending.insert(id, waiting), ..self }
    }

    /// A complete frame leaves. It reaches the renderer unless a reference was
    /// lost and it is no keyframe.
    pub open spec fn finished(self, id: FrameId, waiting: Waiting) -> (
        AssemblerState,
        Option<Frame>,
    ) {
        let withheld = self.waiting_for_keyframe && !waiting.meta.keyframe;
        let next = AssemblerState {
            pending: self.pending.remove(id),
            remembered: self.remember(seq![id]),
            waiting_for_keyframe: withheld,
            stats: VideoStats {
                completed: self.stats.completed.wrapping_add(1),
                repaired_chunks: self.stats.repaired_chunks.wrapping_add(waiting.repaired as u64),
                awaiting_keyframe_discarded: if withheld {
                    self.stats.awaiting_keyframe_discarded.wrapping_add(1)
                } else {
                    self.stats.awaiting_keyframe_discarded
                },
                ..self.stats
            },
            ..self
        };
        (
            next,
            if withheld {
                None
            } else {
                Some(waiting.frame(id))
            },
        )
    }

    /// The waiting frame after a record was added to it: repaired if it is not
    /// complete as it stands, and finished if that makes it complete.
    pub open spec fn settled(self, id: FrameId, waiting: Waiting) -> (
        AssemblerState,
        Option<Frame>,
    ) {
        let mended = if waiting.complete() {
            waiting
        } else {
            waiting.repaired_by_parity()
        };
        if mended.complete() {
            self.finished(id, mended)
        } else {
            (self.holding(id, mended), None)
        }
    }

    /// One chunk arrives. `verdict` is what the media contract says of it.
    pub open spec fn insert_chunk(
        self,
        chunk: Chunk,
        verdict: Result<(), Seq<char>>,
        now: Instant,
    ) -> (AssemblerState, Result<Option<Frame>, Refusal>) {
        match verdict {
            Err(reason) => (self, Err(Refusal::Invalid(reason))),
            Ok(_) => if self.remembered.contains(chunk.id) {
                (self.late(), Ok(None))
            } else if self.contradicts(chunk.id, chunk.meta) {
                (self, Err(Refusal::MixedMetadata(chunk.id.frame_id)))
            } else {
                let open = self.opened(chunk.id, chunk.meta, now);
                let waiting = open.pending[chunk.id];
                if waiting.chunks.contains_key(chunk.index) {
                    (open, Ok(None))
                } else {
                    let (next, frame) = open.settled(
                        chunk.id,
                        Waiting {
                            chunks: waiting.chunks.insert(chunk.index, chunk.payload),
                            ..waiting
                        },
                    );
                    (next, Ok(frame))
                }
            },
        }
    }

    /// One parity shard arrives. `verdict` is what the media contract says of
    /// it.
    pub open spec fn insert_parity(
        self,
        parity: Parity,
        verdict: Result<(), Seq<char>>,
        now: Instant,
    ) -> (AssemblerState, Result<Option<Frame>, Refusal>) {
        match verdict {
            Err(reason) => (self, Err(Refusal::Invalid(reason))),
            Ok(_) => if self.remembered.contains(parity.id) {
                (self.late(), Ok(None))
            } else if self.contradicts(parity.id, parity.meta) {
                (self, Err(Refusal::MixedMetadata(parity.id.frame_id)))
            } else {
                let open = self.opened(parity.id, parity.meta, now);
                let waiting = open.pending[parity.id];
                let (next, frame) = open.settled(
                    parity.id,
                    Waiting {
                        parity: waiting.parity.insert(parity.stripe, parity.shard),
                        ..waiting
                    },
                );
                (next, Ok(frame))
            },
        }
    }

    /// The frame has waited as long as it may.
    pub open spec fn aged(self, id: FrameId, now: Instant) -> bool {
        &&& self.pending.contains_key(id)
        &&& now.since(self.pending[id].first_seen) >= self.options.max_frame_age.nanos
    }

    /// `gone` is what giving up on every aged frame leaves on record, in frame
    /// order, and `next` is the state after it.
    pub open spec fn expires(self, now: Instant, gone: Seq<Expired>, next: AssemblerState) -> bool {
        let ids = gone.map_values(|frame: Expired| frame.id);
        &&& ascending(ids)
        &&& forall|id: FrameId| #[trigger] ids.contains(id) <==> self.aged(id, now)
        &&& forall|i: int|
            0 <= i < gone.len() ==> #[trigger] gone[i] == given_up(
                gone[i].id,
                self.pending[gone[i].id],
                ExpiryReason::Aged,
            )
        &&& next == AssemblerState {
            pending: self.pending.remove_keys(ids.to_set()),
            remembered: self.remember(ids),
            waiting_for_keyframe: self.waiting_for_keyframe || gone.len() > 0,
            stats: VideoStats {
                expired: ((self.stats.expired + gone.len()) % 0x1_0000_0000_0000_0000) as u64,
                ..self.stats
            },
            ..self
        }
    }

    /// The chunks the frame lacks are to be asked for: it has waited long
    /// enough for the first time, or long enough since the last, and has been
    /// asked for less often than it may be.
    pub open spec fn due(self, id: FrameId, now: Instant) -> bool {
        let waiting = self.pending[id];
        &&& self.pending.contains_key(id)
        &&& waiting.missing(id.frame_id).len() > 0
        &&& waiting.asks < self.options.repair_attempts
        &&& if waiting.asks == 0 {
            now.since(waiting.first_seen) >= self.options.repair_after.nanos
        } else {
            now.since(waiting.last_ask) >= self.options.repair_interval.nanos
        }
    }

    /// The waiting frames after the due ones were asked for.
    pub open spec fn asked(self, now: Instant) -> Map<FrameId, Waiting> {
        Map::new(
            |id: FrameId| self.pending.contains_key(id),
            |id: FrameId|
                if self.due(id, now) {
                    Waiting {
                        asks: (self.pending[id].asks + 1) as u32,
                        last_ask: now,
                        ..self.pending[id]
                    }
                } else {
                    self.pending[id]
                },
        )
    }

    /// `asks` names what every due frame lacks, in frame order, and `next` is
    /// the state after it.
    pub open spec fn asks_for(self, now: Instant, asks: Seq<Repair>, next: AssemblerState) -> bool {
        let ids = asks.map_values(|ask: Repair| ask.id);
        &&& ascending(ids)
        &&& forall|id: FrameId| #[trigger] ids.contains(id) <==> self.due(id, now)
        &&& forall|i: int|
            0 <= i < asks.len() ==> (#[trigger] asks[i]).missing
                == self.pending[asks[i].id].missing(asks[i].id.frame_id)
        &&& next == AssemblerState { pending: self.asked(now), ..self }
    }
}

/// Frames in their order, none twice.
pub open spec fn ascending(ids: Seq<FrameId>) -> bool {
    forall|i: int, j: int| 0 <= i < j < ids.len() ==> #[trigger] ids[i].before(#[trigger] ids[j])
}

/// What is remembered was remembered before or is new, and is no more than
/// the limit.
pub proof fn lemma_newest(ids: Seq<FrameId>, more: Seq<FrameId>, limit: nat)
    ensures
        newest(ids + more, limit).len() <= limit,
        forall|id: FrameId| #[trigger]
            newest(ids + more, limit).contains(id) ==> ids.contains(id) || more.contains(id),
{
    let all = ids + more;
    let kept = newest(all, limit);
    assert forall|id: FrameId| #[trigger] kept.contains(id) implies ids.contains(id)
        || more.contains(id) by {
        let i = choose|i: int| 0 <= i < kept.len() && kept[i] == id;
        let j = i + (all.len() - kept.len());
        assert(all[j] == id);
        if j < ids.len() {
            assert(ids[j] == id);
        } else {
            assert(more[j - ids.len()] == id);
        }
    }
}

/// Remembering one after another is remembering them together.
pub proof fn lemma_newest_adds_up(
    ids: Seq<FrameId>,
    more: Seq<FrameId>,
    id: FrameId,
    limit: nat,
)
    ensures
        newest(newest(ids + more, limit) + seq![id], limit) == newest(ids + more.push(id), limit),
{
    assert(newest(newest(ids + more, limit) + seq![id], limit) =~= newest(
        ids + more.push(id),
        limit,
    ));
}

/// A valid state stays valid when a waiting frame leaves and is remembered.
pub proof fn lemma_still_valid_without(before: AssemblerState, after: AssemblerState, id: FrameId)
    requires
        before.valid(),
        before.pending.contains_key(id),
        after.options == before.options,
        after.pending == before.pending.remove(id),
        after.remembered == before.remember(seq![id]),
    ensures
        after.valid(),
        after.pending.len() == before.pending.len() - 1,
{
    lemma_newest(before.remembered, seq![id], before.options.remembered_frames as nat);
    assert forall|other: FrameId| #[trigger]
        after.pending.contains_key(other) implies !after.remembered.contains(other) by {
        assert(before.pending.contains_key(other));
        if seq![id].contains(other) {
            assert(other == id);
        }
    }
}

/// Some frame has waited longest, if any waits.
pub proof fn lemma_stalest_exists(pending: Map<FrameId, Waiting>)
    requires
        pending.dom().finite(),
        pending.len() > 0,
    ensures
        exists|id: FrameId| is_stalest(pending, id),
    decreases pending.len(),
{
    let one = pending.dom().choose();
    let rest = pending.remove(one);
    assert(pending.contains_key(one));
    if rest.len() == 0 {
        assert(is_stalest(pending, one)) by {
            assert forall|other: FrameId| #[trigger] pending.contains_key(other) implies other
                == one by {
                if other != one {
                    assert(rest.dom().contains(other));
                    assert(rest.dom().len() > 0);
                }
            }
        }
    } else {
        lemma_stalest_exists(rest);
        let two = choose|id: FrameId| is_stalest(rest, id);
        assert(pending.contains_key(two));
        keys::lemma_frame_total(one, two);
        let first = pending[one].first_seen.nanos < pending[two].first_seen.nanos || (
        pending[one].first_seen == pending[two].first_seen && one.before(two));
        if first {
            assert forall|other: FrameId| #[trigger]
                pending.contains_key(other) && other != one implies {
                ||| pending[one].first_seen.nanos < pending[other].first_seen.nanos
                ||| pending[one].first_seen == pending[other].first_seen && one.before(other)
            } by {
                assert(rest.contains_key(other));
                if other != two && two.before(other) && one.before(two) {
                    keys::lemma_frame_transitive(one, two, other);
                }
            }
            assert(is_stalest(pending, one));
        } else {
            assert forall|other: FrameId| #[trigger]
                pending.contains_key(other) && other != two implies {
                ||| pending[two].first_seen.nanos < pending[other].first_seen.nanos
                ||| pending[two].first_seen == pending[other].first_seen && two.before(other)
            } by {
                if other != one {
                    assert(rest.contains_key(other));
                }
            }
            assert(is_stalest(pending, two));
        }
    }
}

/// What holds once room was made for a new frame.
pub proof fn lemma_with_room_valid(state: AssemblerState)
    requires
        state.valid(),
        state.options.max_pending_frames > 0,
    ensures
        state.with_room().valid(),
        state.with_room().options == state.options,
        state.with_room().pending.len() < state.options.max_pending_frames,
        forall|id: FrameId| #[trigger]
            state.with_room().pending.contains_key(id) ==> state.pending.contains_key(id)
                && state.with_room().pending[id] == state.pending[id],
{
    if state.pending.len() >= state.options.max_pending_frames {
        lemma_stalest_exists(state.pending);
        let id = choose|id: FrameId| is_stalest(state.pending, id);
        lemma_still_valid_without(state, state.with_room(), id);
    }
}

/// A state that is valid but for the frame `id`, which may be complete.
pub open spec fn valid_but_for(state: AssemblerState, id: FrameId) -> bool {
    &&& state.pending.contains_key(id)
    &&& state.pending.dom().finite()
    &&& state.pending.len() <= state.options.max_pending_frames
    &&& state.remembered.len() <= state.options.remembered_frames
    &&& !state.remembered.contains(id)
    &&& state.pending[id].valid()
    &&& state.pending[id].asks <= state.options.repair_attempts
    &&& forall|other: FrameId| #[trigger]
        state.pending.contains_key(other) && other != id ==> {
            &&& !state.remembered.contains(other)
            &&& state.pending[other].valid()
            &&& !state.pending[other].complete()
            &&& state.pending[other].asks <= state.options.repair_attempts
        }
}

/// What holds once the frame of a record is among those that wait.
pub proof fn lemma_opened_valid(
    state: AssemblerState,
    id: FrameId,
    meta: FrameMeta,
    now: Instant,
)
    requires
        state.valid(),
        state.options.max_pending_frames > 0,
        !state.remembered.contains(id),
    ensures
        valid_but_for(state.opened(id, meta, now), id),
        state.opened(id, meta, now).options == state.options,
{
    if !state.pending.contains_key(id) {
        lemma_with_room_valid(state);
        let roomy = state.with_room();
        if state.pending.len() >= state.options.max_pending_frames {
            lemma_stalest_exists(state.pending);
            let gone = choose|gone: FrameId| is_stalest(state.pending, gone);
            lemma_newest(state.remembered, seq![gone], state.options.remembered_frames as nat);
            if roomy.remembered.contains(id) {
                assert(seq![gone].contains(id));
                assert(id == gone);
            }
        }
    }
}

/// A frame that settles leaves the state valid.
pub proof fn lemma_settled_valid(state: AssemblerState, id: FrameId, waiting: Waiting)
    requires
        valid_but_for(state, id),
        waiting.valid(),
        waiting.asks <= state.options.repair_attempts,
    ensures
        state.settled(id, waiting).0.valid(),
        state.settled(id, waiting).0.options == state.options,
{
    let mended = if waiting.complete() {
        waiting
    } else {
        waiting.repaired_by_parity()
    };
    frame::lemma_repair_valid(waiting, frame::indices());
    frame::lemma_repair_keeps(waiting, frame::indices());
    let next = state.settled(id, waiting).0;
    if mended.complete() {
        lemma_newest(state.remembered, seq![id], state.options.remembered_frames as nat);
        assert forall|other: FrameId| #[trigger]
            next.pending.contains_key(other) implies !next.remembered.contains(other) by {
            if seq![id].contains(other) {
                assert(other == id);
            }
        }
    } else {
        assert(state.pending.insert(id, mended).dom() =~= state.pending.dom());
    }
}

/// Settling does not depend on what was held of the frame before.
pub proof fn lemma_settled_without(
    open: AssemblerState,
    without: AssemblerState,
    id: FrameId,
    waiting: Waiting,
)
    requires
        without == (AssemblerState { pending: open.pending.remove(id), ..open }),
    ensures
        without.settled(id, waiting) == open.settled(id, waiting),
{
    assert(open.pending.remove(id).remove(id) =~= open.pending.remove(id));
    assert forall|w: Waiting| #[trigger] open.pending.remove(id).insert(id, w)
        == open.pending.insert(id, w) by {
        assert(open.pending.remove(id).insert(id, w) =~= open.pending.insert(id, w));
    }
}

/// Whatever chunk arrives, a valid state stays valid.
pub proof fn lemma_insert_chunk_valid(
    state: AssemblerState,
    chunk: Chunk,
    verdict: Result<(), Seq<char>>,
    now: Instant,
)
    requires
        state.valid(),
        verdict is Ok ==> state.options.max_pending_frames > 0,
    ensures
        state.insert_chunk(chunk, verdict, now).0.valid(),
        state.insert_chunk(chunk, verdict, now).0.options == state.options,
{
    if verdict is Ok && !state.remembered.contains(chunk.id) && !state.contradicts(
        chunk.id,
        chunk.meta,
    ) {
        lemma_opened_valid(state, chunk.id, chunk.meta, now);
        let open = state.opened(chunk.id, chunk.meta, now);
        let waiting = open.pending[chunk.id];
        if !waiting.chunks.contains_key(chunk.index) {
            let grown = Waiting {
                chunks: waiting.chunks.insert(chunk.index, chunk.payload),
                ..waiting
            };
            frame::lemma_own_chunks_grow(waiting, chunk.index, chunk.payload);
            lemma_settled_valid(open, chunk.id, grown);
        }
    }
}

/// Whatever parity arrives, a valid state stays valid.
pub proof fn lemma_insert_parity_valid(
    state: AssemblerState,
    parity: Parity,
    verdict: Result<(), Seq<char>>,
    now: Instant,
)
    requires
        state.valid(),
        verdict is Ok ==> state.options.max_pending_frames > 0,
    ensures
        state.insert_parity(parity, verdict, now).0.valid(),
        state.insert_parity(parity, verdict, now).0.options == state.options,
{
    if verdict is Ok && !state.remembered.contains(parity.id) && !state.contradicts(
        parity.id,
        parity.meta,
    ) {
        lemma_opened_valid(state, parity.id, parity.meta, now);
        let open = state.opened(parity.id, parity.meta, now);
        let waiting = open.pending[parity.id];
        let grown = Waiting {
            parity: waiting.parity.insert(parity.stripe, parity.shard),
            ..waiting
        };
        assert(grown.own_chunks() == waiting.own_chunks());
        lemma_settled_valid(open, parity.id, grown);
    }
}

/// Asking for what frames lack keeps a valid state valid.
pub proof fn lemma_asked_valid(state: AssemblerState, now: Instant)
    requires
        state.valid(),
    ensures
        (AssemblerState { pending: state.asked(now), ..state }).valid(),
{
    let next = AssemblerState { pending: state.asked(now), ..state };
    assert(next.pending.dom() =~= state.pending.dom());
    assert forall|id: FrameId| #[trigger] next.pending.contains_key(id) implies {
        &&& !next.remembered.contains(id)
        &&& next.pending[id].valid()
        &&& !next.pending[id].complete()
        &&& next.pending[id].asks <= next.options.repair_attempts
    } by {
        assert(state.pending.contains_key(id));
        assert(next.pending[id].own_chunks() == state.pending[id].own_chunks());
    }
}

} // verus!
