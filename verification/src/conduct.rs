//! What each step does to reassembly, told by what was there before, what
//! arrived, and what is there afterwards.

use crate::clock::Instant;
use crate::frame;
use crate::frame::{Frame, Waiting};
use crate::keys;
use crate::keys::{ChunkKey, FrameId};
use crate::laws;
use crate::laws::Step;
use crate::reassembly;
use crate::reassembly::{AssemblerState, Expired, Refusal, Repair};
use crate::records::{FrameMeta, Shard};
use crate::video::{ExpiryReason, VideoAssemblerOptions};
use vstd::prelude::*;

verus! {

/// A record that arrives: the frame it is for, what it says of the frame, what
/// the media contract says of it, and when it came.
pub struct Arrival {
    pub id: FrameId,
    pub meta: FrameMeta,
    pub verdict: Result<(), Seq<char>>,
    pub now: Instant,
}

/// The record a step brings, if it brings one.
pub open spec fn arrival(step: Step) -> Option<Arrival> {
    match step {
        Step::Chunk { chunk, verdict, now } => Some(
            Arrival { id: chunk.id, meta: chunk.meta, verdict, now },
        ),
        Step::Parity { parity, verdict, now } => Some(
            Arrival { id: parity.id, meta: parity.meta, verdict, now },
        ),
        _ => None,
    }
}

/// What taking in the record of a step returns.
pub open spec fn returned(state: AssemblerState, step: Step) -> Result<Option<Frame>, Refusal> {
    match step {
        Step::Chunk { chunk, verdict, now } => state.insert_chunk(chunk, verdict, now).1,
        Step::Parity { parity, verdict, now } => state.insert_parity(parity, verdict, now).1,
        _ => Ok(None),
    }
}

/// The record is allowed, is for a frame that has not ended as far as is
/// remembered, and does not contradict what is held of that frame.
pub open spec fn welcome(state: AssemblerState, came: Arrival) -> bool {
    &&& came.verdict is Ok
    &&& !state.remembered.contains(came.id)
    &&& state.pending.contains_key(came.id) ==> state.pending[came.id].meta == came.meta
}

/// The record needs room that a waiting frame has to make.
pub open spec fn needs_room(state: AssemblerState, came: Arrival) -> bool {
    &&& welcome(state, came)
    &&& !state.pending.contains_key(came.id)
    &&& state.pending.len() >= state.options.max_pending_frames
}

/// What is true of a step that brings a record, in the shapes the laws share.
spec fn admits(state: AssemblerState, step: Step, next: AssemblerState) -> bool {
    let came = arrival(step)->0;
    let open = state.opened(came.id, came.meta, came.now);
    ||| next == open
    ||| exists|waiting: Waiting| next == (#[trigger] open.settled(came.id, waiting)).0
}

proof fn lemma_admits(
    state: AssemblerState,
    step: Step,
    next: AssemblerState,
    frame: Option<Frame>,
)
    requires
        laws::takes(state, step, next, frame),
        arrival(step) is Some,
        welcome(state, arrival(step)->0),
    ensures
        admits(state, step, next),
{
    let came = arrival(step)->0;
    let open = state.opened(came.id, came.meta, came.now);
    let waiting = open.pending[came.id];
    match step {
        Step::Chunk { chunk, verdict, now } => {
            let grown = Waiting {
                chunks: waiting.chunks.insert(chunk.index, chunk.payload),
                ..waiting
            };
            assert(open.settled(came.id, grown).0 == open.settled(came.id, grown).0);
        },
        Step::Parity { parity, verdict, now } => {
            let grown = Waiting {
                parity: waiting.parity.insert(parity.stripe, parity.shard),
                ..waiting
            };
            assert(open.settled(came.id, grown).0 == open.settled(came.id, grown).0);
        },
        _ => {},
    }
}

/// A new assembler has nothing on record, keeps to the options it was given,
/// and waits for its first keyframe.
pub proof fn law_a_new_assembler_has_nothing_on_record(options: VideoAssemblerOptions)
    ensures
        ({
            let new = AssemblerState::initial(options);
            &&& new.valid()
            &&& new.options == options
            &&& forall|id: FrameId| !(#[trigger] new.pending.contains_key(id))
            &&& new.remembered.len() == 0
            &&& new.evicted.len() == 0
            &&& new.waiting_for_keyframe
            &&& new.stats.completed == 0 && new.stats.repaired_chunks == 0
            &&& new.stats.expired == 0 && new.stats.evicted == 0
            &&& new.stats.late_discarded == 0 && new.stats.awaiting_keyframe_discarded == 0
        }),
{
}

/// The bounds hold in every state of a run: no more frames wait, and no more
/// are remembered, than the options say; the options never change; and a frame
/// that is remembered as ended does not wait.
pub proof fn law_the_bounds_hold_throughout(
    states: Seq<AssemblerState>,
    steps: Seq<Step>,
    frames: Seq<Option<Frame>>,
    n: int,
)
    requires
        laws::runs(states, steps, frames),
        states[0].valid(),
        states[0].options.max_pending_frames > 0,
        0 <= n < states.len(),
    ensures
        states[n].options == states[0].options,
        states[n].pending.dom().finite(),
        states[n].pending.len() <= states[0].options.max_pending_frames,
        states[n].remembered.len() <= states[0].options.remembered_frames,
        forall|id: FrameId| #[trigger]
            states[n].pending.contains_key(id) ==> !states[n].remembered.contains(id)
                && states[n].pending[id].asks <= states[0].options.repair_attempts
                && states[n].pending[id].chunks.len() != states[n].pending[id].meta.chunk_count,
{
    laws::law_every_state_of_a_run_is_valid(states, steps, frames, n);
}

/// A record is refused for one of two causes and no other: the media contract
/// does not allow it, or it contradicts a waiting frame. What was refused
/// changes nothing.
pub proof fn law_records_are_refused_for_cause(
    state: AssemblerState,
    step: Step,
    next: AssemblerState,
    frame: Option<Frame>,
)
    requires
        laws::takes(state, step, next, frame),
        arrival(step) is Some,
    ensures
        ({
            let came = arrival(step)->0;
            let contradicts = !state.remembered.contains(came.id) && state.pending.contains_key(
                came.id,
            ) && state.pending[came.id].meta != came.meta;
            &&& returned(state, step) is Err <==> came.verdict is Err || contradicts
            &&& came.verdict is Err ==> returned(state, step) == Err::<Option<Frame>, Refusal>(
                Refusal::Invalid(came.verdict->Err_0),
            )
            &&& came.verdict is Ok && contradicts ==> returned(state, step) == Err::<
                Option<Frame>,
                Refusal,
            >(Refusal::MixedMetadata(came.id.frame_id))
            &&& returned(state, step) is Err ==> next == state && frame is None
            &&& returned(state, step) is Ok ==> returned(state, step) == Ok::<
                Option<Frame>,
                Refusal,
            >(frame)
        }),
{
}

/// A record for a frame that has ended, as far as is remembered, is counted and
/// otherwise as if it had not come.
pub proof fn law_a_late_record_is_only_counted(
    state: AssemblerState,
    step: Step,
    next: AssemblerState,
    frame: Option<Frame>,
)
    requires
        laws::takes(state, step, next, frame),
        arrival(step) is Some,
        arrival(step)->0.verdict is Ok,
        state.remembered.contains(arrival(step)->0.id),
    ensures
        frame is None,
        next.options == state.options,
        next.pending == state.pending,
        next.remembered == state.remembered,
        next.waiting_for_keyframe == state.waiting_for_keyframe,
        next.evicted == state.evicted,
        next.stats.late_discarded == state.stats.late_discarded.wrapping_add(1),
        next.stats.completed == state.stats.completed,
        next.stats.repaired_chunks == state.stats.repaired_chunks,
        next.stats.expired == state.stats.expired,
        next.stats.evicted == state.stats.evicted,
        next.stats.awaiting_keyframe_discarded == state.stats.awaiting_keyframe_discarded,
{
}

/// What a record does to the counters: a frame that ends by it is counted as
/// completed, with the chunks parity gave back to it, and as withheld unless it
/// was handed on; a frame that makes room is counted as evicted; and nothing
/// else is counted.
pub proof fn law_a_welcome_record_moves_these_counters(
    state: AssemblerState,
    step: Step,
    next: AssemblerState,
    frame: Option<Frame>,
)
    requires
        state.valid(),
        state.options.max_pending_frames > 0,
        laws::takes(state, step, next, frame),
        arrival(step) is Some,
        welcome(state, arrival(step)->0),
    ensures
        ({
            let came = arrival(step)->0;
            let ends = !next.pending.contains_key(came.id);
            &&& next.stats.completed == if ends {
                state.stats.completed.wrapping_add(1)
            } else {
                state.stats.completed
            }
            &&& next.stats.evicted == if needs_room(state, came) {
                state.stats.evicted.wrapping_add(1)
            } else {
                state.stats.evicted
            }
            &&& next.stats.awaiting_keyframe_discarded == if ends && frame is None {
                state.stats.awaiting_keyframe_discarded.wrapping_add(1)
            } else {
                state.stats.awaiting_keyframe_discarded
            }
            &&& frame is Some ==> ends && next.stats.repaired_chunks
                == state.stats.repaired_chunks.wrapping_add(frame->0.repaired_chunks as u64)
            &&& !ends ==> next.stats.repaired_chunks == state.stats.repaired_chunks
            &&& next.stats.expired == state.stats.expired
            &&& next.stats.late_discarded == state.stats.late_discarded
            &&& next.options == state.options
        }),
{
    let came = arrival(step)->0;
    lemma_admits(state, step, next, frame);
    reassembly::lemma_opened_valid(state, came.id, came.meta, came.now);
}

/// The wait for a keyframe begins with a loss and ends with a keyframe, and
/// nothing else moves it: a step that hands on a frame leaves no wait; one that
/// hands on none and gives up on none leaves it as it was; and one that gives up
/// on a frame and hands on none begins it.
pub proof fn law_the_wait_begins_with_a_loss(
    state: AssemblerState,
    step: Step,
    next: AssemblerState,
    frame: Option<Frame>,
)
    requires
        state.valid(),
        laws::takes(state, step, next, frame),
    ensures
        ({
            let gives_up = match step {
                Step::Expire { now, gone } => gone.len() > 0,
                _ => arrival(step) is Some && needs_room(state, arrival(step)->0),
            };
            &&& frame is Some ==> !next.waiting_for_keyframe
            &&& frame is None && !gives_up && state.waiting_for_keyframe
                ==> next.waiting_for_keyframe
            &&& !gives_up && !state.waiting_for_keyframe ==> !next.waiting_for_keyframe
            &&& frame is None && gives_up ==> next.waiting_for_keyframe
        }),
{
    if arrival(step) is Some && welcome(state, arrival(step)->0) {
        lemma_repairs_keep_meta(state, step);
    }
}

proof fn lemma_repairs_keep_meta(state: AssemblerState, step: Step)
    requires
        arrival(step) is Some,
    ensures
        ({
            let came = arrival(step)->0;
            let waiting = state.opened(came.id, came.meta, came.now).pending[came.id];
            match step {
                Step::Chunk { chunk, verdict, now } => (Waiting {
                    chunks: waiting.chunks.insert(chunk.index, chunk.payload),
                    ..waiting
                }).repaired_by_parity().meta == waiting.meta,
                Step::Parity { parity, verdict, now } => (Waiting {
                    parity: waiting.parity.insert(parity.stripe, parity.shard),
                    ..waiting
                }).repaired_by_parity().meta == waiting.meta,
                _ => true,
            }
        }),
{
    let came = arrival(step)->0;
    let waiting = state.opened(came.id, came.meta, came.now).pending[came.id];
    match step {
        Step::Chunk { chunk, verdict, now } => {
            let grown = Waiting {
                chunks: waiting.chunks.insert(chunk.index, chunk.payload),
                ..waiting
            };
            frame::lemma_repair_keeps(grown, frame::indices());
        },
        Step::Parity { parity, verdict, now } => {
            let grown = Waiting {
                parity: waiting.parity.insert(parity.stripe, parity.shard),
                ..waiting
            };
            frame::lemma_repair_keeps(grown, frame::indices());
        },
        _ => {},
    }
}

/// A step during which no frame is counted as given up does not begin a wait.
pub proof fn law_no_loss_no_wait(
    state: AssemblerState,
    step: Step,
    next: AssemblerState,
    frame: Option<Frame>,
)
    requires
        state.valid(),
        state.options.max_pending_frames > 0,
        laws::takes(state, step, next, frame),
        !state.waiting_for_keyframe,
        next.stats.expired == state.stats.expired,
        next.stats.evicted == state.stats.evicted,
    ensures
        !next.waiting_for_keyframe,
        next.stats.completed != state.stats.completed ==> frame is Some,
        next.stats.awaiting_keyframe_discarded == state.stats.awaiting_keyframe_discarded,
{
    law_the_wait_begins_with_a_loss(state, step, next, frame);
    match step {
        Step::Expire { now, gone } => {
            lemma_gone_is_bounded(state, now, gone, next);
        },
        _ => {
            if arrival(step) is Some {
                if welcome(state, arrival(step)->0) {
                    law_a_welcome_record_moves_these_counters(state, step, next, frame);
                    lemma_repairs_keep_meta(state, step);
                }
            }
        },
    }
}

proof fn lemma_gone_is_bounded(
    state: AssemblerState,
    now: Instant,
    gone: Seq<Expired>,
    next: AssemblerState,
)
    requires
        state.valid(),
        state.expires(now, gone, next),
    ensures
        gone.len() <= state.pending.len(),
        gone.len() <= usize::MAX,
{
    let ids = gone.map_values(|frame: Expired| frame.id);
    lemma_ascending_is_unique(ids);
    ids.unique_seq_to_set();
    assert forall|id: FrameId| ids.to_set().contains(id) implies #[trigger] state.pending.dom().contains(
        id,
    ) by {
        assert(ids.contains(id));
    }
    vstd::set_lib::lemma_len_subset(ids.to_set(), state.pending.dom());
}

proof fn lemma_ascending_is_unique(ids: Seq<FrameId>)
    requires
        reassembly::ascending(ids),
    ensures
        ids.no_duplicates(),
{
    assert forall|i: int, j: int| 0 <= i < ids.len() && 0 <= j < ids.len() && i != j implies ids[i]
        != ids[j] by {
        keys::lemma_frame_irreflexive(ids[i]);
        if i < j {
            assert(ids[i].before(ids[j]));
        } else {
            assert(ids[j].before(ids[i]));
        }
    }
}

/// Without losses nothing is withheld: in a run that does not begin waiting for
/// a keyframe and in which no frame is counted as given up, every step by which
/// a frame is completed hands that frame on.
pub proof fn law_without_losses_every_frame_is_handed_on(
    states: Seq<AssemblerState>,
    steps: Seq<Step>,
    frames: Seq<Option<Frame>>,
    n: int,
)
    requires
        laws::runs(states, steps, frames),
        states[0].valid(),
        states[0].options.max_pending_frames > 0,
        !states[0].waiting_for_keyframe,
        0 <= n < steps.len(),
        forall|i: int|
            0 <= i < states.len() ==> (#[trigger] states[i]).stats.expired
                == states[0].stats.expired && states[i].stats.evicted == states[0].stats.evicted,
    ensures
        !states[n + 1].waiting_for_keyframe,
        states[n + 1].stats.completed != states[n].stats.completed ==> frames[n] is Some,
        states[n + 1].stats.awaiting_keyframe_discarded
            == states[0].stats.awaiting_keyframe_discarded,
    decreases n,
{
    if n > 0 {
        law_without_losses_every_frame_is_handed_on(states, steps, frames, n - 1);
    }
    laws::law_every_state_of_a_run_is_valid(states, steps, frames, n);
    assert(laws::takes(states[n], steps[n], states[n + 1], frames[n]));
    assert(states[n + 1].stats.expired == states[n].stats.expired);
    law_no_loss_no_wait(states[n], steps[n], states[n + 1], frames[n]);
}

/// A frame handed on is the one the record is for, and is described as the
/// record describes it.
pub proof fn law_a_frame_is_described_by_its_records(
    state: AssemblerState,
    step: Step,
    next: AssemblerState,
    handed_on: Option<Frame>,
)
    requires
        state.valid(),
        laws::takes(state, step, next, handed_on),
        handed_on is Some,
    ensures
        arrival(step) is Some,
        ({
            let came = arrival(step)->0;
            let frame = handed_on->0;
            &&& welcome(state, came)
            &&& frame.id == came.id
            &&& frame.codec == came.meta.codec
            &&& frame.pts_ticks == came.meta.pts_ticks
            &&& frame.duration_ticks == came.meta.duration_ticks
            &&& frame.timebase_num == came.meta.timebase_num
            &&& frame.timebase_den == came.meta.timebase_den
            &&& frame.keyframe == came.meta.keyframe
            &&& frame.dependency_frame_id == came.meta.dependency_frame_id
        }),
{
    if arrival(step) is Some {
        lemma_repairs_keep_meta(state, step);
    }
}

/// The last of some frames, as many as are remembered.
pub open spec fn last_of(ids: Seq<FrameId>, limit: int) -> Seq<FrameId> {
    if ids.len() > limit {
        ids.subrange(ids.len() - limit, ids.len() as int)
    } else {
        ids
    }
}

/// What is remembered are the frames that ended last, in the order they ended:
/// a record adds the frame that made room for it and the frame it completed.
pub proof fn law_a_record_is_remembered_by_what_it_ended(
    state: AssemblerState,
    step: Step,
    next: AssemblerState,
    frame: Option<Frame>,
)
    requires
        state.valid(),
        state.options.max_pending_frames > 0,
        laws::takes(state, step, next, frame),
        arrival(step) is Some,
        welcome(state, arrival(step)->0),
    ensures
        ({
            let came = arrival(step)->0;
            let room = if needs_room(state, came) {
                seq![next.evicted.last().id]
            } else {
                Seq::empty()
            };
            let done = if next.pending.contains_key(came.id) {
                Seq::empty()
            } else {
                seq![came.id]
            };
            next.remembered == last_of(
                state.remembered + room + done,
                state.options.remembered_frames as int,
            )
        }),
{
    let came = arrival(step)->0;
    lemma_admits(state, step, next, frame);
    reassembly::lemma_opened_valid(state, came.id, came.meta, came.now);
    let limit = state.options.remembered_frames as nat;
    let room = if needs_room(state, came) {
        seq![next.evicted.last().id]
    } else {
        Seq::empty()
    };
    let none = Seq::<FrameId>::empty();
    assert(state.remembered + room + none =~= state.remembered + room);
    assert(state.remembered + none =~= state.remembered);
    assert(state.remembered + room + seq![came.id] =~= state.remembered + room.push(came.id));
    reassembly::lemma_newest_adds_up(state.remembered, room, came.id, limit);
}

/// Making room takes the frame that came first: where as many frames wait as
/// may and a new one comes, the one first seen earliest goes, of those seen at
/// the same time the one that is first by name, and it is put on record with
/// what it lacked. Otherwise nothing is evicted.
pub proof fn law_room_is_made_by_the_frame_that_came_first(
    state: AssemblerState,
    step: Step,
    next: AssemblerState,
    frame: Option<Frame>,
)
    requires
        state.valid(),
        state.options.max_pending_frames > 0,
        laws::takes(state, step, next, frame),
        arrival(step) is Some,
    ensures
        ({
            let came = arrival(step)->0;
            let gone = next.evicted.last();
            if needs_room(state, came) {
                &&& next.evicted == state.evicted.push(gone)
                &&& state.pending.contains_key(gone.id)
                &&& !next.pending.contains_key(gone.id)
                &&& gone.keyframe == state.pending[gone.id].meta.keyframe
                &&& gone.missing == state.pending[gone.id].missing(gone.id.frame_id)
                &&& gone.reason == ExpiryReason::Evicted
                &&& forall|other: FrameId| #[trigger]
                    state.pending.contains_key(other) && other != gone.id ==> {
                        let mine = state.pending[gone.id].first_seen.nanos;
                        let theirs = state.pending[other].first_seen.nanos;
                        mine < theirs || mine == theirs && gone.id.before(other)
                    }
            } else {
                next.evicted == state.evicted
            }
        }),
{
    let came = arrival(step)->0;
    if welcome(state, came) {
        lemma_admits(state, step, next, frame);
        reassembly::lemma_opened_valid(state, came.id, came.meta, came.now);
        if needs_room(state, came) {
            reassembly::lemma_stalest_exists(state.pending);
        }
    }
}

/// A record touches its own frame and the one that makes room for it, and no
/// other.
pub proof fn law_a_record_touches_no_other_frame(
    state: AssemblerState,
    step: Step,
    next: AssemblerState,
    frame: Option<Frame>,
    other: FrameId,
)
    requires
        state.valid(),
        state.options.max_pending_frames > 0,
        laws::takes(state, step, next, frame),
        arrival(step) is Some,
        other != arrival(step)->0.id,
        needs_room(state, arrival(step)->0) ==> other != next.evicted.last().id,
    ensures
        next.pending.contains_key(other) == state.pending.contains_key(other),
        state.pending.contains_key(other) ==> next.pending[other] == state.pending[other],
{
    let came = arrival(step)->0;
    if welcome(state, came) {
        lemma_admits(state, step, next, frame);
        reassembly::lemma_opened_valid(state, came.id, came.meta, came.now);
        if needs_room(state, came) {
            reassembly::lemma_stalest_exists(state.pending);
        }
    }
}

/// What was held of a frame before a record came for it.
pub open spec fn held(state: AssemblerState, id: FrameId) -> (
    Map<u16, Seq<u8>>,
    Map<u16, Shard>,
    u16,
) {
    if state.pending.contains_key(id) {
        let waiting = state.pending[id];
        (waiting.chunks, waiting.parity, waiting.repaired)
    } else {
        (Map::empty(), Map::empty(), 0)
    }
}

/// A frame that goes on waiting keeps what was held of it and gains what came:
/// chunks and shards on hand stay, a new one is held as it came, a chunk that
/// comes twice stays as it came first, and whatever else is gained came out of
/// parity and is counted. It is as old as its first record, and was asked for as
/// often as before.
pub proof fn law_a_waiting_frame_keeps_what_came(
    state: AssemblerState,
    step: Step,
    next: AssemblerState,
    frame: Option<Frame>,
)
    requires
        state.valid(),
        state.options.max_pending_frames > 0,
        laws::takes(state, step, next, frame),
        arrival(step) is Some,
        welcome(state, arrival(step)->0),
        next.pending.contains_key(arrival(step)->0.id),
    ensures
        frame is None,
        ({
            let came = arrival(step)->0;
            let (chunks, parity, repaired) = held(state, came.id);
            let now_held = next.pending[came.id];
            let known = state.pending.contains_key(came.id);
            let was = state.pending[came.id];
            &&& now_held.meta == came.meta
            &&& now_held.first_seen == if known {
                was.first_seen
            } else {
                came.now
            }
            &&& now_held.asks == if known {
                was.asks
            } else {
                0
            }
            &&& known ==> now_held.last_ask == was.last_ask
            &&& forall|i: u16| #[trigger]
                chunks.contains_key(i) ==> now_held.chunks.contains_key(i) && now_held.chunks[i]
                    == chunks[i]
            &&& match step {
                Step::Chunk { chunk, verdict, now } => {
                    &&& now_held.parity == parity
                    &&& now_held.chunks.contains_key(chunk.index)
                    &&& !chunks.contains_key(chunk.index) ==> now_held.chunks[chunk.index]
                        == chunk.payload
                    &&& forall|i: u16| #[trigger]
                        now_held.chunks.contains_key(i) && !chunks.contains_key(i) && i
                            != chunk.index ==> i < came.meta.chunk_count
                    &&& now_held.repaired - repaired == now_held.chunks.len() - chunks.insert(
                        chunk.index,
                        chunk.payload,
                    ).len()
                },
                Step::Parity { parity: record, verdict, now } => {
                    &&& now_held.parity == parity.insert(record.stripe, record.shard)
                    &&& forall|i: u16| #[trigger]
                        now_held.chunks.contains_key(i) && !chunks.contains_key(i) ==> i
                            < came.meta.chunk_count
                    &&& now_held.repaired - repaired == now_held.chunks.len() - chunks.len()
                },
                _ => false,
            }
        }),
{
    let came = arrival(step)->0;
    let open = state.opened(came.id, came.meta, came.now);
    let waiting = open.pending[came.id];
    reassembly::lemma_opened_valid(state, came.id, came.meta, came.now);
    match step {
        Step::Chunk { chunk, verdict, now } => {
            let grown = Waiting {
                chunks: waiting.chunks.insert(chunk.index, chunk.payload),
                ..waiting
            };
            if waiting.chunks.contains_key(chunk.index) {
                assert(waiting.chunks.insert(chunk.index, chunk.payload).dom()
                    =~= waiting.chunks.dom());
            } else {
                frame::lemma_own_chunks_grow(waiting, chunk.index, chunk.payload);
                lemma_repair_only_adds(grown, frame::indices());
                frame::lemma_repair_keeps(grown, frame::indices());
                assert(grown.chunks.contains_key(chunk.index));
                assert forall|i: u16| #[trigger] waiting.chunks.contains_key(i) implies {
                    &&& next.pending[came.id].chunks.contains_key(i)
                    &&& next.pending[came.id].chunks[i] == waiting.chunks[i]
                } by {
                    assert(grown.chunks.contains_key(i));
                }
            }
        },
        Step::Parity { parity, verdict, now } => {
            let grown = Waiting {
                parity: waiting.parity.insert(parity.stripe, parity.shard),
                ..waiting
            };
            assert(grown.own_chunks() == waiting.own_chunks());
            lemma_repair_only_adds(grown, frame::indices());
            frame::lemma_repair_keeps(grown, frame::indices());
        },
        _ => {},
    }
}

/// Repair leaves the chunks on hand alone, adds only chunks of the frame, and
/// counts them.
proof fn lemma_repair_only_adds(waiting: Waiting, n: nat)
    requires
        waiting.valid(),
    ensures
        ({
            let after = waiting.repair_below(n);
            &&& forall|i: u16| #[trigger]
                waiting.chunks.contains_key(i) ==> after.chunks.contains_key(i) && after.chunks[i]
                    == waiting.chunks[i]
            &&& forall|i: u16| #[trigger]
                after.chunks.contains_key(i) && !waiting.chunks.contains_key(i) ==> i
                    < waiting.meta.chunk_count
            &&& after.repaired - waiting.repaired == after.chunks.len() - waiting.chunks.len()
        }),
    decreases n,
{
    if n > 0 {
        let stripe = (n - 1) as u16;
        let before = waiting.repair_below((n - 1) as nat);
        lemma_repair_only_adds(waiting, (n - 1) as nat);
        frame::lemma_repair_valid(waiting, (n - 1) as nat);
        frame::lemma_repair_keeps(waiting, (n - 1) as nat);
        frame::lemma_repair_stripe_valid(before, stripe);
        if exists|index: u16| before.can_recover(stripe, index) {
            let index = choose|index: u16| before.can_recover(stripe, index);
            assert(before.lacks_only(stripe, index));
        }
    }
}

/// A frame of which no parity is on hand ends exactly when as many chunks are
/// on hand as it has, and is then handed on with none of them out of parity,
/// unless a reference was lost and it is no keyframe.
pub proof fn law_without_parity_a_frame_ends_with_its_last_chunk(
    state: AssemblerState,
    step: Step,
    next: AssemblerState,
    frame: Option<Frame>,
)
    requires
        state.valid(),
        state.options.max_pending_frames > 0,
        laws::takes(state, step, next, frame),
        step is Chunk,
        welcome(state, arrival(step)->0),
        held(state, arrival(step)->0.id).1 == Map::<u16, Shard>::empty(),
    ensures
        ({
            let came = arrival(step)->0;
            let (chunks, _, repaired) = held(state, came.id);
            let index = step->chunk.index;
            let ends = !next.pending.contains_key(came.id);
            let waits = state.waiting_for_keyframe || needs_room(state, came);
            &&& ends <==> !chunks.contains_key(index) && chunks.len() + 1 == came.meta.chunk_count
            &&& !ends ==> next.pending[came.id].chunks == if chunks.contains_key(index) {
                chunks
            } else {
                chunks.insert(index, step->chunk.payload)
            }
            &&& frame is Some <==> ends && (came.meta.keyframe || !waits)
            &&& frame is Some ==> frame->0.repaired_chunks == repaired
        }),
{
    let came = arrival(step)->0;
    let open = state.opened(came.id, came.meta, came.now);
    let waiting = open.pending[came.id];
    let chunk = step->chunk;
    reassembly::lemma_opened_valid(state, came.id, came.meta, came.now);
    let grown = Waiting { chunks: waiting.chunks.insert(chunk.index, chunk.payload), ..waiting };
    assert forall|stripe: u16, index: u16| !grown.can_recover(stripe, index) by {
        assert(!grown.parity.contains_key(stripe));
    }
    crate::erasure::lemma_nothing_to_recover(grown, frame::indices());
}

/// A frame that ends is handed on unless it is no keyframe and the renderer
/// waits for one, or a frame had to make room for it; and as many of its chunks
/// as did not come themselves are counted as given back by parity.
pub proof fn law_a_frame_that_ends_is_withheld_only_for_want_of_a_keyframe(
    state: AssemblerState,
    step: Step,
    next: AssemblerState,
    frame: Option<Frame>,
)
    requires
        state.valid(),
        state.options.max_pending_frames > 0,
        laws::takes(state, step, next, frame),
        arrival(step) is Some,
        welcome(state, arrival(step)->0),
        !next.pending.contains_key(arrival(step)->0.id),
    ensures
        ({
            let came = arrival(step)->0;
            let (chunks, _, repaired) = held(state, came.id);
            let waits = state.waiting_for_keyframe || needs_room(state, came);
            let came_itself = chunks.len() + if step is Chunk {
                1int
            } else {
                0
            };
            let given_back = repaired + came.meta.chunk_count - came_itself;
            &&& frame is Some <==> came.meta.keyframe || !waits
            &&& 0 <= given_back <= u16::MAX
            &&& frame is Some ==> frame->0.repaired_chunks == given_back
            &&& next.stats.repaired_chunks == state.stats.repaired_chunks.wrapping_add(
                given_back as u64,
            )
        }),
{
    let came = arrival(step)->0;
    let open = state.opened(came.id, came.meta, came.now);
    let waiting = open.pending[came.id];
    reassembly::lemma_opened_valid(state, came.id, came.meta, came.now);
    match step {
        Step::Chunk { chunk, verdict, now } => {
            let grown = Waiting {
                chunks: waiting.chunks.insert(chunk.index, chunk.payload),
                ..waiting
            };
            if !waiting.chunks.contains_key(chunk.index) {
                frame::lemma_own_chunks_grow(waiting, chunk.index, chunk.payload);
                lemma_repair_only_adds(grown, frame::indices());
                frame::lemma_repair_keeps(grown, frame::indices());
            }
        },
        Step::Parity { parity, verdict, now } => {
            let grown = Waiting {
                parity: waiting.parity.insert(parity.stripe, parity.shard),
                ..waiting
            };
            assert(grown.own_chunks() == waiting.own_chunks());
            lemma_repair_only_adds(grown, frame::indices());
            frame::lemma_repair_keeps(grown, frame::indices());
        },
        _ => {},
    }
}

/// What a frame lacks is named chunk by chunk: every index below its count that
/// is not on hand, in order, none twice, and nothing else.
pub proof fn law_what_is_missing_is_named(waiting: Waiting, frame_id: u64)
    ensures
        ({
            let missing = waiting.missing(frame_id);
            &&& forall|k: int| 0 <= k < missing.len() ==> {
                &&& (#[trigger] missing[k]).frame_id == frame_id
                &&& missing[k].chunk_index < waiting.meta.chunk_count
                &&& !waiting.chunks.contains_key(missing[k].chunk_index)
            }
            &&& forall|k: int, l: int|
                0 <= k < l < missing.len() ==> (#[trigger] missing[k]).chunk_index < (
                #[trigger] missing[l]).chunk_index
            &&& forall|i: u16|
                i < waiting.meta.chunk_count && !(#[trigger] waiting.chunks.contains_key(i))
                    ==> missing.contains(ChunkKey { frame_id, chunk_index: i })
        }),
{
    let absent = frame::absent(waiting.chunks, waiting.meta.chunk_count as nat);
    let missing = waiting.missing(frame_id);
    lemma_absent(waiting.chunks, waiting.meta.chunk_count as nat);
    assert forall|i: u16|
        i < waiting.meta.chunk_count && !(#[trigger] waiting.chunks.contains_key(
            i,
        )) implies missing.contains(ChunkKey { frame_id, chunk_index: i }) by {
        let k = choose|k: int| 0 <= k < absent.len() && absent[k] == i;
        assert(missing[k] == (ChunkKey { frame_id, chunk_index: i }));
    }
    assert forall|k: int| 0 <= k < missing.len() implies {
        &&& (#[trigger] missing[k]).frame_id == frame_id
        &&& missing[k].chunk_index < waiting.meta.chunk_count
        &&& !waiting.chunks.contains_key(missing[k].chunk_index)
    } by {
        assert(missing[k].chunk_index == absent[k]);
    }
}

proof fn lemma_absent(chunks: Map<u16, Seq<u8>>, n: nat)
    requires
        n <= frame::indices(),
    ensures
        ({
            let absent = frame::absent(chunks, n);
            &&& forall|k: int|
                0 <= k < absent.len() ==> (#[trigger] absent[k]) < n && !chunks.contains_key(
                    absent[k],
                )
            &&& forall|k: int, l: int|
                0 <= k < l < absent.len() ==> (#[trigger] absent[k]) < (#[trigger] absent[l])
            &&& forall|i: u16|
                i < n && !(#[trigger] chunks.contains_key(i)) ==> absent.contains(i)
        }),
    decreases n,
{
    if n > 0 {
        lemma_absent(chunks, (n - 1) as nat);
        let fewer = frame::absent(chunks, (n - 1) as nat);
        let absent = frame::absent(chunks, n);
        assert forall|i: u16| i < n && !(#[trigger] chunks.contains_key(i)) implies absent.contains(
            i,
        ) by {
            if i == n - 1 {
                assert(absent[fewer.len() as int] == i);
            } else {
                let k = choose|k: int| 0 <= k < fewer.len() && fewer[k] == i;
                assert(absent[k] == i);
            }
        }
    }
}

/// A frame is given up on for its age exactly when it has waited as long as it
/// may, counted from its first record, whatever it is. It is named once, in
/// frame order, with what it lacked; it is counted, remembered and no longer
/// waits; and nothing else changes.
pub proof fn law_giving_up_for_age(
    state: AssemblerState,
    now: Instant,
    gone: Seq<Expired>,
    next: AssemblerState,
)
    requires
        state.valid(),
        state.expires(now, gone, next),
    ensures
        forall|i: int| 0 <= i < gone.len() ==> {
            let frame = #[trigger] gone[i];
            &&& state.pending.contains_key(frame.id)
            &&& now.since(state.pending[frame.id].first_seen) >= state.options.max_frame_age.nanos
            &&& !next.pending.contains_key(frame.id)
            &&& frame.keyframe == state.pending[frame.id].meta.keyframe
            &&& frame.missing == state.pending[frame.id].missing(frame.id.frame_id)
            &&& frame.reason == ExpiryReason::Aged
        },
        forall|i: int, j: int|
            0 <= i < j < gone.len() ==> (#[trigger] gone[i]).id.before((#[trigger] gone[j]).id),
        forall|id: FrameId| #[trigger]
            state.pending.contains_key(id) && now.since(state.pending[id].first_seen)
                >= state.options.max_frame_age.nanos ==> exists|i: int|
                0 <= i < gone.len() && (#[trigger] gone[i]).id == id,
        forall|id: FrameId| #[trigger]
            state.pending.contains_key(id) && now.since(state.pending[id].first_seen)
                < state.options.max_frame_age.nanos ==> next.pending.contains_key(id)
                && next.pending[id] == state.pending[id],
        forall|id: FrameId| #[trigger]
            next.pending.contains_key(id) ==> state.pending.contains_key(id),
        next.remembered == last_of(
            state.remembered + gone.map_values(|frame: Expired| frame.id),
            state.options.remembered_frames as int,
        ),
        next.stats.expired == (state.stats.expired + gone.len()) % 0x1_0000_0000_0000_0000,
        next.stats.completed == state.stats.completed,
        next.stats.repaired_chunks == state.stats.repaired_chunks,
        next.stats.evicted == state.stats.evicted,
        next.stats.late_discarded == state.stats.late_discarded,
        next.stats.awaiting_keyframe_discarded == state.stats.awaiting_keyframe_discarded,
        next.options == state.options,
        next.evicted == state.evicted,
{
    let ids = gone.map_values(|frame: Expired| frame.id);
    lemma_gone_is_bounded(state, now, gone, next);
    assert forall|i: int| 0 <= i < gone.len() implies {
        let frame = #[trigger] gone[i];
        &&& state.pending.contains_key(frame.id)
        &&& now.since(state.pending[frame.id].first_seen) >= state.options.max_frame_age.nanos
        &&& !next.pending.contains_key(frame.id)
        &&& frame.keyframe == state.pending[frame.id].meta.keyframe
        &&& frame.missing == state.pending[frame.id].missing(frame.id.frame_id)
        &&& frame.reason == ExpiryReason::Aged
    } by {
        assert(ids[i] == gone[i].id);
        assert(ids.contains(gone[i].id));
        assert(ids.to_set().contains(gone[i].id));
    }
    assert forall|i: int, j: int| 0 <= i < j < gone.len() implies (#[trigger] gone[i]).id.before(
        (#[trigger] gone[j]).id,
    ) by {
        assert(ids[i].before(ids[j]));
    }
    assert forall|id: FrameId| #[trigger]
        state.pending.contains_key(id) && now.since(state.pending[id].first_seen)
            >= state.options.max_frame_age.nanos implies exists|i: int|
        0 <= i < gone.len() && (#[trigger] gone[i]).id == id by {
        assert(ids.contains(id));
        let i = choose|i: int| 0 <= i < ids.len() && ids[i] == id;
        assert(gone[i].id == id);
    }
    assert forall|id: FrameId| #[trigger]
        state.pending.contains_key(id) && now.since(state.pending[id].first_seen)
            < state.options.max_frame_age.nanos implies next.pending.contains_key(id)
        && next.pending[id] == state.pending[id] by {
        assert(!ids.contains(id));
        assert(!ids.to_set().contains(id));
    }
}

/// The turn of a waiting frame to be asked for has come: it lacks a chunk, has
/// been asked for less often than it may be, and has waited long enough, since
/// its first record if it was never asked for and since the last time if it was.
/// Nothing else about it matters.
pub open spec fn turn_has_come(state: AssemblerState, id: FrameId, now: Instant) -> bool {
    let waiting = state.pending[id];
    &&& state.pending.contains_key(id)
    &&& exists|i: u16|
        i < waiting.meta.chunk_count && !(#[trigger] waiting.chunks.contains_key(i))
    &&& waiting.asks < state.options.repair_attempts
    &&& waiting.asks == 0 ==> now.since(waiting.first_seen) >= state.options.repair_after.nanos
    &&& waiting.asks > 0 ==> now.since(waiting.last_ask) >= state.options.repair_interval.nanos
}

/// Every frame whose turn has come is asked for, whatever it is, once, with all
/// that it lacks, and no other is; in frame order. That is noted of the frame,
/// and nothing else changes.
pub proof fn law_every_frame_is_asked_for_in_its_turn(
    state: AssemblerState,
    now: Instant,
    asks: Seq<Repair>,
    next: AssemblerState,
)
    requires
        state.asks_for(now, asks, next),
    ensures
        forall|i: int| 0 <= i < asks.len() ==> {
            let ask = #[trigger] asks[i];
            &&& turn_has_come(state, ask.id, now)
            &&& ask.missing == state.pending[ask.id].missing(ask.id.frame_id)
        },
        forall|i: int, j: int|
            0 <= i < j < asks.len() ==> (#[trigger] asks[i]).id.before((#[trigger] asks[j]).id),
        forall|id: FrameId| #[trigger]
            turn_has_come(state, id, now) ==> exists|i: int|
                0 <= i < asks.len() && (#[trigger] asks[i]).id == id,
        forall|id: FrameId| #[trigger]
            next.pending.contains_key(id) == state.pending.contains_key(id),
        forall|id: FrameId| #[trigger]
            state.pending.contains_key(id) ==> next.pending[id] == if turn_has_come(
                state,
                id,
                now,
            ) {
                Waiting {
                    asks: (state.pending[id].asks + 1) as u32,
                    last_ask: now,
                    ..state.pending[id]
                }
            } else {
                state.pending[id]
            },
        next.options == state.options,
        next.remembered == state.remembered,
        next.waiting_for_keyframe == state.waiting_for_keyframe,
        next.stats == state.stats,
        next.evicted == state.evicted,
{
    let ids = asks.map_values(|ask: Repair| ask.id);
    assert forall|id: FrameId| #[trigger] turn_has_come(state, id, now) == state.due(id, now) by {
        lemma_lacks(state.pending[id], id.frame_id);
    }
    assert forall|i: int| 0 <= i < asks.len() implies {
        let ask = #[trigger] asks[i];
        &&& turn_has_come(state, ask.id, now)
        &&& ask.missing == state.pending[ask.id].missing(ask.id.frame_id)
    } by {
        assert(ids[i] == asks[i].id);
        assert(ids.contains(asks[i].id));
        assert(turn_has_come(state, asks[i].id, now) == state.due(asks[i].id, now));
    }
    assert forall|i: int, j: int| 0 <= i < j < asks.len() implies (#[trigger] asks[i]).id.before(
        (#[trigger] asks[j]).id,
    ) by {
        assert(ids[i].before(ids[j]));
    }
    assert forall|id: FrameId| #[trigger] turn_has_come(state, id, now) implies exists|i: int|
        0 <= i < asks.len() && (#[trigger] asks[i]).id == id by {
        assert(ids.contains(id));
        let i = choose|i: int| 0 <= i < ids.len() && ids[i] == id;
        assert(asks[i].id == id);
    }
    assert forall|id: FrameId| #[trigger] state.pending.contains_key(id) implies next.pending[id]
        == if turn_has_come(state, id, now) {
        Waiting {
            asks: (state.pending[id].asks + 1) as u32,
            last_ask: now,
            ..state.pending[id]
        }
    } else {
        state.pending[id]
    } by {
        assert(turn_has_come(state, id, now) == state.due(id, now));
    }
}

proof fn lemma_lacks(waiting: Waiting, frame_id: u64)
    ensures
        waiting.missing(frame_id).len() > 0 <==> exists|i: u16|
            i < waiting.meta.chunk_count && !(#[trigger] waiting.chunks.contains_key(i)),
{
    law_what_is_missing_is_named(waiting, frame_id);
    let missing = waiting.missing(frame_id);
    if missing.len() > 0 {
        assert(!waiting.chunks.contains_key(missing[0].chunk_index));
    }
    if exists|i: u16| i < waiting.meta.chunk_count && !(#[trigger] waiting.chunks.contains_key(i)) {
        let i = choose|i: u16|
            i < waiting.meta.chunk_count && !(#[trigger] waiting.chunks.contains_key(i));
        assert(missing.contains(ChunkKey { frame_id, chunk_index: i }));
    }
}

} // verus!
