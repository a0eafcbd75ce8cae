//! What video reassembly promises of whole runs, and of any step.

use crate::clock::Instant;
use crate::erasure;
use crate::frame;
use crate::frame::{Frame, Waiting};
use crate::keys::FrameId;
use crate::reassembly;
use crate::reassembly::{AssemblerState, Expired, Refusal, Repair};
use crate::records::{Chunk, FrameMeta, Parity};
use crate::video::VideoStats;
use vstd::prelude::*;

verus! {

/// What reaches the renderer of what an insertion returned.
pub open spec fn handed(result: Result<Option<Frame>, Refusal>) -> Option<Frame> {
    match result {
        Ok(frame) => frame,
        Err(_) => None,
    }
}

/// One thing that can happen to reassembly.
#[verifier::ext_equal]
pub enum Step {
    Chunk { chunk: Chunk, verdict: Result<(), Seq<char>>, now: Instant },
    Parity { parity: Parity, verdict: Result<(), Seq<char>>, now: Instant },
    Expire { now: Instant, gone: Seq<Expired> },
    Ask { now: Instant, asks: Seq<Repair> },
    TakeEvicted,
}

/// The step leads from one state to the next and hands the renderer `frame`.
pub open spec fn takes(
    state: AssemblerState,
    step: Step,
    next: AssemblerState,
    frame: Option<Frame>,
) -> bool {
    match step {
        Step::Chunk { chunk, verdict, now } => {
            let (after, result) = state.insert_chunk(chunk, verdict, now);
            next == after && frame == handed(result)
        },
        Step::Parity { parity, verdict, now } => {
            let (after, result) = state.insert_parity(parity, verdict, now);
            next == after && frame == handed(result)
        },
        Step::Expire { now, gone } => state.expires(now, gone, next) && frame is None,
        Step::Ask { now, asks } => state.asks_for(now, asks, next) && frame is None,
        Step::TakeEvicted => next == (AssemblerState { evicted: Seq::empty(), ..state })
            && frame is None,
    }
}

/// A run: the states in turn, and between any two of them a step and what it
/// handed the renderer.
pub open spec fn runs(
    states: Seq<AssemblerState>,
    steps: Seq<Step>,
    frames: Seq<Option<Frame>>,
) -> bool {
    &&& states.len() == steps.len() + 1
    &&& frames.len() == steps.len()
    &&& forall|i: int|
        0 <= i < steps.len() ==> takes(states[i], #[trigger] steps[i], states[i + 1], frames[i])
}

/// A step taken while waiting for a keyframe hands on a keyframe or nothing,
/// and after nothing the wait goes on.
pub proof fn law_only_a_keyframe_ends_the_wait(
    state: AssemblerState,
    step: Step,
    next: AssemblerState,
    frame: Option<Frame>,
)
    requires
        takes(state, step, next, frame),
        state.waiting_for_keyframe,
    ensures
        frame matches Some(frame) ==> frame.keyframe,
        frame is None ==> next.waiting_for_keyframe,
{
    match step {
        Step::Chunk { chunk, verdict, now } => {
            if verdict is Ok && !state.remembered.contains(chunk.id) && !state.contradicts(
                chunk.id,
                chunk.meta,
            ) {
                let open = state.opened(chunk.id, chunk.meta, now);
                let waiting = open.pending[chunk.id];
                let grown = Waiting {
                    chunks: waiting.chunks.insert(chunk.index, chunk.payload),
                    ..waiting
                };
                frame::lemma_repair_keeps(grown, frame::indices());
            }
        },
        Step::Parity { parity, verdict, now } => {
            if verdict is Ok && !state.remembered.contains(parity.id) && !state.contradicts(
                parity.id,
                parity.meta,
            ) {
                let open = state.opened(parity.id, parity.meta, now);
                let waiting = open.pending[parity.id];
                let grown = Waiting {
                    parity: waiting.parity.insert(parity.stripe, parity.shard),
                    ..waiting
                };
                frame::lemma_repair_keeps(grown, frame::indices());
            }
        },
        _ => {},
    }
}

/// From a loss, or from the start, until the next keyframe nothing is
/// delivered: in any run that begins waiting for a keyframe, the first frame
/// handed to the renderer is a keyframe.
pub proof fn law_nothing_is_delivered_before_a_keyframe(
    states: Seq<AssemblerState>,
    steps: Seq<Step>,
    frames: Seq<Option<Frame>>,
    first: int,
)
    requires
        runs(states, steps, frames),
        states[0].waiting_for_keyframe,
        0 <= first < frames.len(),
        frames[first] is Some,
        forall|i: int| 0 <= i < first ==> (#[trigger] frames[i]) is None,
    ensures
        frames[first]->0.keyframe,
{
    lemma_still_waiting(states, steps, frames, first);
    assert(takes(states[first], steps[first], states[first + 1], frames[first]));
    law_only_a_keyframe_ends_the_wait(
        states[first],
        steps[first],
        states[first + 1],
        frames[first],
    );
}

/// As long as nothing is handed on, the wait goes on.
proof fn lemma_still_waiting(
    states: Seq<AssemblerState>,
    steps: Seq<Step>,
    frames: Seq<Option<Frame>>,
    n: int,
)
    requires
        runs(states, steps, frames),
        states[0].waiting_for_keyframe,
        0 <= n <= frames.len(),
        forall|i: int| 0 <= i < n ==> (#[trigger] frames[i]) is None,
    ensures
        states[n].waiting_for_keyframe,
    decreases n,
{
    if n > 0 {
        lemma_still_waiting(states, steps, frames, n - 1);
        assert(takes(states[n - 1], steps[n - 1], states[n], frames[n - 1]));
        law_only_a_keyframe_ends_the_wait(
            states[n - 1],
            steps[n - 1],
            states[n],
            frames[n - 1],
        );
    }
}

/// A frame lost to age makes the renderer wait for the next keyframe.
pub proof fn law_an_aged_frame_waits_for_a_keyframe(
    state: AssemblerState,
    now: Instant,
    gone: Seq<Expired>,
    next: AssemblerState,
)
    requires
        state.expires(now, gone, next),
        gone.len() > 0,
    ensures
        next.waiting_for_keyframe,
{
}

/// A frame pushed out by newer ones makes the renderer wait for the next
/// keyframe, and is put on record as evicted with what it lacked.
pub proof fn law_an_evicted_frame_waits_for_a_keyframe(state: AssemblerState)
    requires
        state.valid(),
        state.options.max_pending_frames > 0,
        state.pending.len() >= state.options.max_pending_frames,
    ensures
        state.with_room().waiting_for_keyframe,
        state.with_room().pending.len() == state.pending.len() - 1,
        state.with_room().evicted.len() == state.evicted.len() + 1,
        reassembly::is_stalest(state.pending, state.with_room().evicted.last().id),
        state.with_room().evicted.last() == reassembly::given_up(
            state.with_room().evicted.last().id,
            state.pending[state.with_room().evicted.last().id],
            crate::video::ExpiryReason::Evicted,
        ),
{
    reassembly::lemma_stalest_exists(state.pending);
    let id = choose|id: FrameId| reassembly::is_stalest(state.pending, id);
    reassembly::lemma_still_valid_without(state, state.with_room(), id);
}

/// In a run that begins valid every state is valid: the bound on waiting
/// frames is never passed, a frame that waits is incomplete, and no finished
/// frame that is still remembered waits again.
pub proof fn law_every_state_of_a_run_is_valid(
    states: Seq<AssemblerState>,
    steps: Seq<Step>,
    frames: Seq<Option<Frame>>,
    n: int,
)
    requires
        runs(states, steps, frames),
        states[0].valid(),
        states[0].options.max_pending_frames > 0,
        0 <= n < states.len(),
    ensures
        states[n].valid(),
        states[n].options == states[0].options,
    decreases n,
{
    if n > 0 {
        law_every_state_of_a_run_is_valid(states, steps, frames, n - 1);
        let state = states[n - 1];
        assert(takes(state, steps[n - 1], states[n], frames[n - 1]));
        match steps[n - 1] {
            Step::Chunk { chunk, verdict, now } => {
                reassembly::lemma_insert_chunk_valid(state, chunk, verdict, now);
            },
            Step::Parity { parity, verdict, now } => {
                reassembly::lemma_insert_parity_valid(state, parity, verdict, now);
            },
            Step::Expire { now, gone } => {
                lemma_expires_valid(state, now, gone, states[n]);
            },
            Step::Ask { now, asks } => {
                reassembly::lemma_asked_valid(state, now);
            },
            Step::TakeEvicted => {},
        }
    }
}

/// Giving up on aged frames keeps the state valid.
proof fn lemma_expires_valid(
    state: AssemblerState,
    now: Instant,
    gone: Seq<Expired>,
    next: AssemblerState,
)
    requires
        state.valid(),
        state.expires(now, gone, next),
    ensures
        next.valid(),
{
    let ids = gone.map_values(|frame: Expired| frame.id);
    reassembly::lemma_newest(state.remembered, ids, state.options.remembered_frames as nat);
    assert(next.pending.dom() =~= state.pending.dom().difference(ids.to_set()));
    vstd::set_lib::lemma_len_subset(next.pending.dom(), state.pending.dom());
    assert forall|id: FrameId| #[trigger] next.pending.contains_key(id) implies {
        &&& !next.remembered.contains(id)
        &&& next.pending[id] == state.pending[id]
        &&& state.pending.contains_key(id)
    } by {
        assert(!ids.to_set().contains(id));
        assert(!ids.contains(id));
    }
}

/// A record for a frame already finished does not reopen it: as long as the
/// frame is remembered the record is counted as late and nothing else changes.
pub proof fn law_late_records_do_not_reopen(
    state: AssemblerState,
    chunk: Chunk,
    parity: Parity,
    now: Instant,
)
    requires
        state.remembered.contains(chunk.id),
        parity.id == chunk.id,
    ensures
        state.insert_chunk(chunk, Ok(()), now) == (state.late(), Ok::<Option<Frame>, Refusal>(None)),
        state.insert_parity(parity, Ok(()), now) == (
            state.late(),
            Ok::<Option<Frame>, Refusal>(None),
        ),
        state.late().pending == state.pending,
        state.late().remembered == state.remembered,
{
}

/// A duplicate is not damage: a chunk of a waiting frame that is already on
/// hand changes nothing.
pub proof fn law_a_duplicate_chunk_changes_nothing(
    state: AssemblerState,
    chunk: Chunk,
    now: Instant,
)
    requires
        state.valid(),
        state.pending.contains_key(chunk.id),
        state.pending[chunk.id].meta == chunk.meta,
        state.pending[chunk.id].chunks.contains_key(chunk.index),
    ensures
        state.insert_chunk(chunk, Ok(()), now) == (state, Ok::<Option<Frame>, Refusal>(None)),
{
}

/// Metadata that contradicts a waiting frame is refused, and the frame is left
/// as it was.
pub proof fn law_contradicting_metadata_is_refused(
    state: AssemblerState,
    chunk: Chunk,
    parity: Parity,
    now: Instant,
)
    requires
        state.valid(),
        state.contradicts(chunk.id, chunk.meta),
        parity.id == chunk.id,
        parity.meta == chunk.meta,
    ensures
        state.insert_chunk(chunk, Ok(()), now) == (
            state,
            Err::<Option<Frame>, Refusal>(Refusal::MixedMetadata(chunk.id.frame_id)),
        ),
        state.insert_parity(parity, Ok(()), now) == (
            state,
            Err::<Option<Frame>, Refusal>(Refusal::MixedMetadata(chunk.id.frame_id)),
        ),
{
}

/// Frames are kept apart: a record changes what is held of its own frame and
/// of no other, except that a new frame may push out the one that has waited
/// longest.
pub proof fn law_frames_are_kept_apart(
    state: AssemblerState,
    chunk: Chunk,
    verdict: Result<(), Seq<char>>,
    now: Instant,
    other: FrameId,
)
    requires
        state.valid(),
        state.options.max_pending_frames > 0,
        other != chunk.id,
    ensures
        ({
            let next = state.insert_chunk(chunk, verdict, now).0;
            &&& next.pending.contains_key(other) ==> state.pending.contains_key(other)
                && next.pending[other] == state.pending[other]
            &&& state.pending.contains_key(other) && !next.pending.contains_key(other) ==> {
                &&& !state.pending.contains_key(chunk.id)
                &&& state.pending.len() == state.options.max_pending_frames
                &&& reassembly::is_stalest(state.pending, other)
            }
        }),
{
    if state.pending.len() >= state.options.max_pending_frames {
        reassembly::lemma_stalest_exists(state.pending);
    }
}

/// Parity keeps frames apart as chunks do.
pub proof fn law_frames_are_kept_apart_by_parity(
    state: AssemblerState,
    parity: Parity,
    verdict: Result<(), Seq<char>>,
    now: Instant,
    other: FrameId,
)
    requires
        state.valid(),
        state.options.max_pending_frames > 0,
        other != parity.id,
    ensures
        ({
            let next = state.insert_parity(parity, verdict, now).0;
            &&& next.pending.contains_key(other) ==> state.pending.contains_key(other)
                && next.pending[other] == state.pending[other]
            &&& state.pending.contains_key(other) && !next.pending.contains_key(other) ==> {
                &&& !state.pending.contains_key(parity.id)
                &&& state.pending.len() == state.options.max_pending_frames
                &&& reassembly::is_stalest(state.pending, other)
            }
        }),
{
    if state.pending.len() >= state.options.max_pending_frames {
        reassembly::lemma_stalest_exists(state.pending);
    }
}

/// A frame is asked for only when its turn has come: for the first time when
/// it has waited `repair_after`, then `repair_interval` after the last time,
/// and no more than `repair_attempts` times.
pub proof fn law_repair_is_asked_for_in_turn(
    state: AssemblerState,
    now: Instant,
    asks: Seq<Repair>,
    next: AssemblerState,
    i: int,
)
    requires
        state.valid(),
        state.asks_for(now, asks, next),
        0 <= i < asks.len(),
    ensures
        ({
            let before = state.pending[asks[i].id];
            let after = next.pending[asks[i].id];
            &&& state.pending.contains_key(asks[i].id)
            &&& next.pending.contains_key(asks[i].id)
            &&& before.asks == 0 ==> now.since(before.first_seen) >= state.options.repair_after.nanos
            &&& before.asks > 0 ==> now.since(before.last_ask)
                >= state.options.repair_interval.nanos
            &&& after.asks == before.asks + 1
            &&& after.asks <= state.options.repair_attempts
            &&& after.last_ask == now
            &&& asks[i].missing.len() > 0
        }),
{
    let ids = asks.map_values(|ask: Repair| ask.id);
    assert(ids[i] == asks[i].id);
    assert(ids.contains(asks[i].id));
}

/// A frame that was just asked for is not asked for again before
/// `repair_interval` has passed.
pub proof fn law_repair_is_not_asked_for_too_soon(
    state: AssemblerState,
    now: Instant,
    asks: Seq<Repair>,
    next: AssemblerState,
    id: FrameId,
    later: Instant,
)
    requires
        state.asks_for(now, asks, next),
        state.due(id, now),
        later.since(now) < state.options.repair_interval.nanos,
    ensures
        !next.due(id, later),
{
}

/// The chunks on hand once some have arrived.
pub open spec fn arrived(arrivals: Seq<(Chunk, Instant)>) -> Map<u16, Seq<u8>>
    decreases arrivals.len(),
{
    if arrivals.len() == 0 {
        Map::empty()
    } else {
        arrived(arrivals.drop_last()).insert(arrivals.last().0.index, arrivals.last().0.payload)
    }
}

/// The state after chunks arrived one by one, and what the last of them handed
/// the renderer.
pub open spec fn fed(state: AssemblerState, arrivals: Seq<(Chunk, Instant)>) -> (
    AssemblerState,
    Option<Frame>,
)
    decreases arrivals.len(),
{
    if arrivals.len() == 0 {
        (state, None)
    } else {
        let (next, result) = fed(state, arrivals.drop_last()).0.insert_chunk(
            arrivals.last().0,
            Ok(()),
            arrivals.last().1,
        );
        (next, handed(result))
    }
}

/// The arrivals are chunks of one frame, no two alike, each a piece of the
/// access unit.
pub open spec fn pieces_of(
    arrivals: Seq<(Chunk, Instant)>,
    id: FrameId,
    meta: FrameMeta,
    pieces: Seq<Seq<u8>>,
) -> bool {
    &&& pieces.len() == meta.chunk_count
    &&& forall|i: int|
        0 <= i < arrivals.len() ==> {
            let chunk = (#[trigger] arrivals[i]).0;
            &&& chunk.id == id
            &&& chunk.meta == meta
            &&& chunk.index < meta.chunk_count
            &&& chunk.payload == pieces[chunk.index as int]
        }
    &&& forall|i: int, j: int|
        0 <= i < j < arrivals.len() ==> (#[trigger] arrivals[i]).0.index != (
        #[trigger] arrivals[j]).0.index
}

/// The first of some pieces of an access unit are pieces of it.
proof fn lemma_pieces_of_prefix(
    arrivals: Seq<(Chunk, Instant)>,
    id: FrameId,
    meta: FrameMeta,
    pieces: Seq<Seq<u8>>,
    n: int,
)
    requires
        pieces_of(arrivals, id, meta, pieces),
        0 <= n <= arrivals.len(),
    ensures
        pieces_of(arrivals.take(n), id, meta, pieces),
{
    let some = arrivals.take(n);
    assert forall|i: int| 0 <= i < some.len() implies {
        let chunk = (#[trigger] some[i]).0;
        &&& chunk.id == id
        &&& chunk.meta == meta
        &&& chunk.index < meta.chunk_count
        &&& chunk.payload == pieces[chunk.index as int]
    } by {
        assert(some[i] == arrivals[i]);
    }
    assert forall|i: int, j: int| 0 <= i < j < some.len() implies (
    #[trigger] some[i]).0.index != (#[trigger] some[j]).0.index by {
        assert(some[i] == arrivals[i]);
        assert(some[j] == arrivals[j]);
    }
}

/// The chunks that arrived are as many, and each is its piece.
proof fn lemma_arrived(
    arrivals: Seq<(Chunk, Instant)>,
    id: FrameId,
    meta: FrameMeta,
    pieces: Seq<Seq<u8>>,
)
    requires
        pieces_of(arrivals, id, meta, pieces),
    ensures
        arrived(arrivals).dom().finite(),
        arrived(arrivals).len() == arrivals.len(),
        forall|index: u16| #[trigger]
            arrived(arrivals).contains_key(index) ==> index < meta.chunk_count && arrived(
                arrivals,
            )[index] == pieces[index as int],
        forall|index: u16| #[trigger]
            arrived(arrivals).contains_key(index) ==> exists|i: int|
                0 <= i < arrivals.len() && (#[trigger] arrivals[i]).0.index == index,
    decreases arrivals.len(),
{
    if arrivals.len() > 0 {
        let less = arrivals.drop_last();
        lemma_pieces_of_prefix(arrivals, id, meta, pieces, arrivals.len() - 1);
        assert(less =~= arrivals.take(arrivals.len() - 1));
        lemma_arrived(less, id, meta, pieces);
        let last = arrivals.last().0;
        assert(arrivals.last() == arrivals[arrivals.len() - 1]);
        if arrived(less).contains_key(last.index) {
            let i = choose|i: int| 0 <= i < less.len() && (#[trigger] less[i]).0.index == last.index;
            assert(arrivals[i].0.index == last.index);
        }
        assert forall|index: u16| #[trigger]
            arrived(arrivals).contains_key(index) implies exists|i: int|
            0 <= i < arrivals.len() && (#[trigger] arrivals[i]).0.index == index by {
            if index == last.index {
                assert(arrivals[arrivals.len() - 1].0.index == index);
            } else {
                let i = choose|i: int| 0 <= i < less.len() && (#[trigger] less[i]).0.index == index;
                assert(arrivals[i].0.index == index);
            }
        }
    }
}

/// A waiting frame of which only chunks have arrived.
pub open spec fn bare(
    meta: FrameMeta,
    chunks: Map<u16, Seq<u8>>,
    first_seen: Instant,
) -> Waiting {
    Waiting { chunks, ..Waiting::opened(meta, first_seen) }
}

/// What arriving chunks leave of a new frame, and what the last one makes of it.
proof fn lemma_fed(
    state: AssemblerState,
    arrivals: Seq<(Chunk, Instant)>,
    id: FrameId,
    meta: FrameMeta,
    pieces: Seq<Seq<u8>>,
)
    requires
        state.valid(),
        state.options.max_pending_frames > 0,
        !state.remembered.contains(id),
        !state.pending.contains_key(id),
        pieces_of(arrivals, id, meta, pieces),
        0 < arrivals.len() <= meta.chunk_count,
    ensures
        arrivals.len() < meta.chunk_count ==> fed(state, arrivals) == (
            state.with_room().holding(id, bare(meta, arrived(arrivals), arrivals[0].1)),
            None::<Frame>,
        ),
        arrivals.len() == meta.chunk_count ==> fed(state, arrivals).1
            == state.with_room().finished(
            id,
            bare(meta, arrived(arrivals), arrivals[0].1),
        ).1,
    decreases arrivals.len(),
{
    let less = arrivals.drop_last();
    let last = arrivals.last();
    assert(last == arrivals[arrivals.len() - 1]);
    lemma_arrived(arrivals, id, meta, pieces);
    reassembly::lemma_opened_valid(state, id, meta, last.1);
    let roomy = state.with_room();
    let before = fed(state, less).0;
    let open = before.opened(id, meta, last.1);
    if arrivals.len() == 1 {
        assert(before == state);
        assert(arrived(less) =~= Map::empty());
        assert(open == roomy.holding(id, bare(meta, arrived(less), arrivals[0].1)));
    } else {
        lemma_pieces_of_prefix(arrivals, id, meta, pieces, arrivals.len() - 1);
        assert(less =~= arrivals.take(arrivals.len() - 1));
        lemma_fed(state, less, id, meta, pieces);
        assert(less[0] == arrivals[0]);
        assert(open == before);
    }
    let held = bare(meta, arrived(less), arrivals[0].1);
    assert(open == roomy.holding(id, held));
    lemma_last_is_new(arrivals, id, meta, pieces);
    let grown = bare(meta, arrived(arrivals), arrivals[0].1);
    assert(grown == (Waiting {
        chunks: held.chunks.insert(last.0.index, last.0.payload),
        ..held
    }));
    assert(roomy.holding(id, held).pending.insert(id, grown) =~= roomy.pending.insert(id, grown));
    assert forall|stripe: u16, index: u16| !grown.can_recover(stripe, index) by {
        assert(!grown.parity.contains_key(stripe));
    }
    erasure::lemma_nothing_to_recover(grown, frame::indices());
    assert(!before.remembered.contains(id));
    assert(!before.contradicts(id, meta));
    assert(before.insert_chunk(last.0, Ok(()), last.1) == {
        let (next, frame) = open.settled(id, grown);
        (next, Ok::<Option<Frame>, Refusal>(frame))
    });
}

/// The last chunk is not among those before it.
proof fn lemma_last_is_new(
    arrivals: Seq<(Chunk, Instant)>,
    id: FrameId,
    meta: FrameMeta,
    pieces: Seq<Seq<u8>>,
)
    requires
        pieces_of(arrivals, id, meta, pieces),
        arrivals.len() > 0,
    ensures
        !arrived(arrivals.drop_last()).contains_key(arrivals.last().0.index),
{
    let less = arrivals.drop_last();
    lemma_pieces_of_prefix(arrivals, id, meta, pieces, arrivals.len() - 1);
    assert(less =~= arrivals.take(arrivals.len() - 1));
    lemma_arrived(less, id, meta, pieces);
    if arrived(less).contains_key(arrivals.last().0.index) {
        let i = choose|i: int|
            0 <= i < less.len() && (#[trigger] less[i]).0.index == arrivals.last().0.index;
        assert(arrivals[i].0.index == arrivals[arrivals.len() - 1].0.index);
    }
}

/// Chunks that hold the pieces of an access unit, end to end, are the access
/// unit.
pub proof fn law_an_access_unit_is_its_chunks_in_order(
    chunks: Map<u16, Seq<u8>>,
    pieces: Seq<Seq<u8>>,
)
    requires
        pieces.len() < frame::indices(),
        forall|index: u16| #[trigger]
            chunks.contains_key(index) <==> index < pieces.len(),
        forall|index: u16| #[trigger]
            chunks.contains_key(index) ==> chunks[index] == pieces[index as int],
    ensures
        frame::joined(chunks, frame::indices()) == pieces.flatten(),
{
    lemma_joined_prefix(chunks, pieces, pieces.len());
    frame::lemma_joined_skips(chunks, pieces.len(), frame::indices());
    assert(pieces.take(pieces.len() as int) =~= pieces);
}

/// The first chunks end to end are the first pieces.
proof fn lemma_joined_prefix(chunks: Map<u16, Seq<u8>>, pieces: Seq<Seq<u8>>, n: nat)
    requires
        n <= pieces.len() < frame::indices(),
        forall|index: u16| #[trigger]
            chunks.contains_key(index) <==> index < pieces.len(),
        forall|index: u16| #[trigger]
            chunks.contains_key(index) ==> chunks[index] == pieces[index as int],
    ensures
        frame::joined(chunks, n) == pieces.take(n as int).flatten(),
    decreases n,
{
    if n > 0 {
        lemma_joined_prefix(chunks, pieces, (n - 1) as nat);
        let before = pieces.take(n - 1);
        assert(pieces.take(n as int) =~= before.push(pieces[n - 1]));
        before.lemma_flatten_push(pieces[n - 1]);
        assert(chunks.contains_key((n - 1) as u16));
    } else {
        assert(pieces.take(0) =~= Seq::empty());
    }
}

/// Chunks in, whole access units out: in whatever order and at whatever times
/// the chunks of a new frame arrive, nothing is handed on before the last of
/// them, and the last one completes the frame, whose bytes are the pieces end
/// to end. It reaches the renderer unless a reference was lost and it is no
/// keyframe.
pub proof fn law_chunks_in_any_order_make_the_frame(
    state: AssemblerState,
    arrivals: Seq<(Chunk, Instant)>,
    id: FrameId,
    meta: FrameMeta,
    pieces: Seq<Seq<u8>>,
    n: int,
)
    requires
        state.valid(),
        state.options.max_pending_frames > 0,
        !state.remembered.contains(id),
        !state.pending.contains_key(id),
        pieces_of(arrivals, id, meta, pieces),
        arrivals.len() == meta.chunk_count,
        0 < n <= arrivals.len(),
    ensures
        n < arrivals.len() ==> fed(state, arrivals.take(n)).1 is None,
        n == arrivals.len() ==> fed(state, arrivals.take(n)).1 == (
        if state.with_room().waiting_for_keyframe && !meta.keyframe {
            None
        } else {
            Some(
                Frame {
                    id,
                    codec: meta.codec,
                    pts_ticks: meta.pts_ticks,
                    duration_ticks: meta.duration_ticks,
                    timebase_num: meta.timebase_num,
                    timebase_den: meta.timebase_den,
                    keyframe: meta.keyframe,
                    dependency_frame_id: meta.dependency_frame_id,
                    bytes: pieces.flatten(),
                    repaired_chunks: 0,
                },
            )
        }),
{
    let some = arrivals.take(n);
    lemma_pieces_of_prefix(arrivals, id, meta, pieces, n);
    lemma_fed(state, some, id, meta, pieces);
    lemma_arrived(some, id, meta, pieces);
    if n == arrivals.len() {
        lemma_full_range(arrived(some), meta.chunk_count);
        law_an_access_unit_is_its_chunks_in_order(arrived(some), pieces);
    }
}

/// As many distinct indices below a bound as the bound are all of them.
pub proof fn lemma_full_range(chunks: Map<u16, Seq<u8>>, bound: u16)
    requires
        chunks.dom().finite(),
        chunks.len() == bound,
        forall|index: u16| #[trigger] chunks.contains_key(index) ==> index < bound,
    ensures
        forall|index: u16| #[trigger] chunks.contains_key(index) <==> index < bound,
    decreases bound,
{
    if bound > 0 {
        let last = (bound - 1) as u16;
        if chunks.contains_key(last) {
            let less = chunks.remove(last);
            lemma_full_range(less, last);
            assert forall|index: u16| index < bound implies #[trigger] chunks.contains_key(index) by {
                if index < last {
                    assert(less.contains_key(index));
                }
            }
        } else {
            // One index fewer than the bound cannot hold as many chunks.
            let numbers = chunks.dom().map(|index: u16| index as int);
            vstd::set_lib::lemma_map_size(chunks.dom(), numbers, |index: u16| index as int);
            vstd::set_lib::lemma_int_range(0, last as int);
            vstd::set_lib::lemma_len_subset(
                numbers,
                vstd::set_lib::set_int_range(0, last as int),
            );
        }
    }
}

/// Parity stands in for lost chunks: when a shard arrives and with it each
/// stripe of a waiting frame lacks at most one chunk and has its shard on
/// hand, the frame is complete and its bytes are the producer's.
pub proof fn law_parity_completes_a_waiting_frame(
    state: AssemblerState,
    parity: Parity,
    now: Instant,
    frame: Map<u16, Seq<u8>>,
)
    requires
        state.valid(),
        state.pending.contains_key(parity.id),
        state.pending[parity.id].meta == parity.meta,
        0 < parity.shard.parity_count,
        erasure::repairable(
            Waiting {
                parity: state.pending[parity.id].parity.insert(parity.stripe, parity.shard),
                ..state.pending[parity.id]
            },
            frame,
            parity.shard.parity_count,
        ),
    ensures
        ({
            let (next, result) = state.insert_parity(parity, Ok(()), now);
            &&& !next.pending.contains_key(parity.id)
            &&& next.stats.completed == state.stats.completed.wrapping_add(1)
            &&& if state.waiting_for_keyframe && !parity.meta.keyframe {
                handed(result) is None
            } else {
                &&& handed(result) is Some
                &&& handed(result)->0.bytes == frame::joined(frame, frame::indices())
            }
        }),
{
    let waiting = state.pending[parity.id];
    let grown = Waiting { parity: waiting.parity.insert(parity.stripe, parity.shard), ..waiting };
    assert(grown.own_chunks() == waiting.own_chunks());
    erasure::law_parity_completes_a_frame(grown, frame, parity.shard.parity_count);
    frame::lemma_repair_keeps(grown, frame::indices());
}

/// A chunk completes a frame that parity can complete with it: when it arrives
/// for a waiting frame, and with it each stripe lacks at most one chunk and has
/// its shard on hand, the frame is complete and its bytes are the producer's.
pub proof fn law_a_chunk_and_parity_complete_a_waiting_frame(
    state: AssemblerState,
    chunk: Chunk,
    now: Instant,
    frame: Map<u16, Seq<u8>>,
    parity_count: u16,
)
    requires
        state.valid(),
        state.pending.contains_key(chunk.id),
        state.pending[chunk.id].meta == chunk.meta,
        !state.pending[chunk.id].chunks.contains_key(chunk.index),
        0 < parity_count,
        erasure::repairable(
            Waiting {
                chunks: state.pending[chunk.id].chunks.insert(chunk.index, chunk.payload),
                ..state.pending[chunk.id]
            },
            frame,
            parity_count,
        ),
    ensures
        ({
            let (next, result) = state.insert_chunk(chunk, Ok(()), now);
            &&& !next.pending.contains_key(chunk.id)
            &&& next.stats.completed == state.stats.completed.wrapping_add(1)
            &&& if state.waiting_for_keyframe && !chunk.meta.keyframe {
                handed(result) is None
            } else {
                &&& handed(result) is Some
                &&& handed(result)->0.bytes == frame::joined(frame, frame::indices())
            }
        }),
{
    let waiting = state.pending[chunk.id];
    let grown = Waiting { chunks: waiting.chunks.insert(chunk.index, chunk.payload), ..waiting };
    frame::lemma_own_chunks_grow(waiting, chunk.index, chunk.payload);
    erasure::law_parity_completes_a_frame(grown, frame, parity_count);
    frame::lemma_repair_keeps(grown, frame::indices());
    if grown.complete() {
        erasure::lemma_prefix_len(frame, grown.meta.chunk_count);
        assert(grown.chunks.dom().subset_of(frame.dom()));
        vstd::set_lib::lemma_subset_equality(grown.chunks.dom(), frame.dom());
        assert(grown.chunks =~= frame);
    }
}

/// After giving up on aged frames, none that still waits is too old.
pub proof fn law_no_frame_outlives_its_age(
    state: AssemblerState,
    now: Instant,
    gone: Seq<Expired>,
    next: AssemblerState,
    id: FrameId,
)
    requires
        state.expires(now, gone, next),
        next.pending.contains_key(id),
    ensures
        now.since(next.pending[id].first_seen) < next.options.max_frame_age.nanos,
{
    let ids = gone.map_values(|frame: Expired| frame.id);
    if ids.contains(id) {
        assert(ids.to_set().contains(id));
    }
}

/// How many frames were completed or given up on, by the counters.
pub open spec fn ended(stats: VideoStats) -> int {
    stats.completed + stats.expired + stats.evicted
}

/// No counter of frames is about to wrap around.
pub open spec fn counters_hold(state: AssemblerState) -> bool {
    &&& state.stats.completed < u64::MAX
    &&& state.stats.evicted < u64::MAX
    &&& state.stats.expired + state.pending.len() <= u64::MAX
}

/// The step brings a frame that is neither waiting nor remembered.
pub open spec fn brings_a_new_frame(state: AssemblerState, step: Step) -> bool {
    match step {
        Step::Chunk { chunk, verdict, now } => {
            &&& verdict is Ok
            &&& !state.remembered.contains(chunk.id)
            &&& !state.pending.contains_key(chunk.id)
        },
        Step::Parity { parity, verdict, now } => {
            &&& verdict is Ok
            &&& !state.remembered.contains(parity.id)
            &&& !state.pending.contains_key(parity.id)
        },
        _ => false,
    }
}

/// Every frame is accounted for: the frames that wait and those counted as
/// completed, expired or evicted together go up by one when a new frame comes,
/// and never otherwise change.
pub proof fn law_every_frame_is_accounted_for(
    state: AssemblerState,
    step: Step,
    next: AssemblerState,
    frame: Option<Frame>,
)
    requires
        state.valid(),
        state.options.max_pending_frames > 0,
        counters_hold(state),
        takes(state, step, next, frame),
    ensures
        next.pending.len() + ended(next.stats) == state.pending.len() + ended(state.stats)
            + if brings_a_new_frame(state, step) {
            1int
        } else {
            0
        },
{
    match step {
        Step::Chunk { chunk, verdict, now } => {
            if verdict is Ok && !state.remembered.contains(chunk.id) && !state.contradicts(
                chunk.id,
                chunk.meta,
            ) {
                let open = state.opened(chunk.id, chunk.meta, now);
                let waiting = open.pending[chunk.id];
                lemma_opened_adds_up(state, chunk.id, chunk.meta, now);
                lemma_settled_adds_up(
                    open,
                    chunk.id,
                    Waiting {
                        chunks: waiting.chunks.insert(chunk.index, chunk.payload),
                        ..waiting
                    },
                );
            }
        },
        Step::Parity { parity, verdict, now } => {
            if verdict is Ok && !state.remembered.contains(parity.id) && !state.contradicts(
                parity.id,
                parity.meta,
            ) {
                let open = state.opened(parity.id, parity.meta, now);
                let waiting = open.pending[parity.id];
                lemma_opened_adds_up(state, parity.id, parity.meta, now);
                lemma_settled_adds_up(
                    open,
                    parity.id,
                    Waiting {
                        parity: waiting.parity.insert(parity.stripe, parity.shard),
                        ..waiting
                    },
                );
            }
        },
        Step::Expire { now, gone } => {
            lemma_expires_adds_up(state, now, gone, next);
        },
        Step::Ask { now, asks } => {
            assert(next.pending.dom() =~= state.pending.dom());
        },
        Step::TakeEvicted => {},
    }
}

/// Opening a frame adds it to those that wait; room is made by one that ends.
proof fn lemma_opened_adds_up(state: AssemblerState, id: FrameId, meta: FrameMeta, now: Instant)
    requires
        state.valid(),
        state.options.max_pending_frames > 0,
        counters_hold(state),
        !state.remembered.contains(id),
    ensures
        ({
            let open = state.opened(id, meta, now);
            &&& open.pending.contains_key(id)
            &&& open.pending.dom().finite()
            &&& open.stats.completed == state.stats.completed
            &&& open.pending.len() + ended(open.stats) == state.pending.len() + ended(state.stats)
                + if state.pending.contains_key(id) {
                0int
            } else {
                1
            }
        }),
{
    if !state.pending.contains_key(id) {
        let roomy = state.with_room();
        if state.pending.len() >= state.options.max_pending_frames {
            law_an_evicted_frame_waits_for_a_keyframe(state);
            reassembly::lemma_stalest_exists(state.pending);
        }
        assert(!roomy.pending.contains_key(id));
        assert(roomy.pending.dom().finite());
        assert(state.opened(id, meta, now).pending.dom() =~= roomy.pending.dom().insert(id));
    }
}

/// A frame leaves those that wait exactly when it is counted as completed.
proof fn lemma_settled_adds_up(open: AssemblerState, id: FrameId, waiting: Waiting)
    requires
        open.pending.contains_key(id),
        open.pending.dom().finite(),
        open.stats.completed < u64::MAX,
    ensures
        open.settled(id, waiting).0.pending.len() + ended(open.settled(id, waiting).0.stats)
            == open.pending.len() + ended(open.stats),
{
    assert(open.pending.insert(id, waiting.repaired_by_parity()).dom() =~= open.pending.dom());
    assert(open.pending.remove(id).dom() =~= open.pending.dom().remove(id));
}

/// A frame leaves those that wait exactly when it is counted as expired.
proof fn lemma_expires_adds_up(
    state: AssemblerState,
    now: Instant,
    gone: Seq<Expired>,
    next: AssemblerState,
)
    requires
        state.valid(),
        counters_hold(state),
        state.expires(now, gone, next),
    ensures
        next.pending.len() + gone.len() == state.pending.len(),
        next.stats.expired == state.stats.expired + gone.len(),
{
    let ids = gone.map_values(|frame: Expired| frame.id);
    assert(ids.no_duplicates()) by {
        assert forall|i: int, j: int| 0 <= i < ids.len() && 0 <= j < ids.len() && i != j implies
            ids[i] != ids[j] by {
            crate::keys::lemma_frame_irreflexive(ids[i]);
            if i < j {
                assert(ids[i].before(ids[j]));
            } else {
                assert(ids[j].before(ids[i]));
            }
        }
    }
    ids.unique_seq_to_set();
    assert forall|id: FrameId| ids.to_set().contains(id) implies #[trigger] state.pending.dom().contains(
        id,
    ) by {
        assert(ids.contains(id));
        assert(state.aged(id, now));
    }
    assert(next.pending.dom() =~= state.pending.dom().difference(ids.to_set()));
    assert(next.pending.dom().disjoint(ids.to_set()));
    assert(next.pending.dom() + ids.to_set() =~= state.pending.dom());
    vstd::set_lib::lemma_set_disjoint_lens(next.pending.dom(), ids.to_set());
}

/// The frame whose record a step brings, if the record is not refused.
pub open spec fn accepts(state: AssemblerState, step: Step) -> Option<FrameId> {
    match step {
        Step::Chunk { chunk, verdict, now } => if state.insert_chunk(chunk, verdict, now).1 is Ok {
            Some(chunk.id)
        } else {
            None
        },
        Step::Parity { parity, verdict, now } => if state.insert_parity(
            parity,
            verdict,
            now,
        ).1 is Ok {
            Some(parity.id)
        } else {
            None
        },
        _ => None,
    }
}

/// What a step remembers: the frames that ended by it, behind those remembered
/// before. Every frame that waited, and the one a record was accepted for unless
/// it is late, then waits or has ended.
proof fn lemma_step_remembers(
    state: AssemblerState,
    step: Step,
    next: AssemblerState,
    frame: Option<Frame>,
) -> (more: Seq<FrameId>)
    requires
        state.valid(),
        state.options.max_pending_frames > 0,
        counters_hold(state),
        takes(state, step, next, frame),
    ensures
        next.options == state.options,
        next.remembered == state.remember(more),
        more.len() == ended(next.stats) - ended(state.stats),
        forall|id: FrameId|
            (#[trigger] next.pending.contains_key(id) || more.contains(id)) <==> {
                ||| state.pending.contains_key(id)
                ||| accepts(state, step) == Some(id) && !state.remembered.contains(id)
            },
{
    let limit = state.options.remembered_frames as nat;
    assert(state.remember(Seq::empty()) =~= state.remembered);
    match step {
        Step::Chunk { chunk, verdict, now } => {
            if verdict is Ok && !state.remembered.contains(chunk.id) && !state.contradicts(
                chunk.id,
                chunk.meta,
            ) {
                lemma_record_remembers(state, chunk.id, chunk.meta, now, next)
            } else {
                Seq::empty()
            }
        },
        Step::Parity { parity, verdict, now } => {
            if verdict is Ok && !state.remembered.contains(parity.id) && !state.contradicts(
                parity.id,
                parity.meta,
            ) {
                lemma_record_remembers(state, parity.id, parity.meta, now, next)
            } else {
                Seq::empty()
            }
        },
        Step::Expire { now, gone } => {
            lemma_expires_adds_up(state, now, gone, next);
            let ids = gone.map_values(|frame: Expired| frame.id);
            assert forall|id: FrameId|
                (#[trigger] next.pending.contains_key(id) || ids.contains(id))
                    <==> state.pending.contains_key(id) by {
                assert(ids.to_set().contains(id) <==> ids.contains(id));
            }
            ids
        },
        _ => Seq::empty(),
    }
}

/// A record adds to memory the frame that made room and the frame it completes.
proof fn lemma_record_remembers(
    state: AssemblerState,
    id: FrameId,
    meta: FrameMeta,
    now: Instant,
    next: AssemblerState,
) -> (more: Seq<FrameId>)
    requires
        state.valid(),
        state.options.max_pending_frames > 0,
        counters_hold(state),
        ({
            let open = state.opened(id, meta, now);
            ||| next == open
            ||| exists|waiting: Waiting| next == (#[trigger] open.settled(id, waiting)).0
        }),
    ensures
        next.options == state.options,
        next.remembered == state.remember(more),
        more.len() == ended(next.stats) - ended(state.stats),
        forall|other: FrameId|
            (#[trigger] next.pending.contains_key(other) || more.contains(other)) <==> {
                ||| state.pending.contains_key(other)
                ||| other == id
            },
{
    let limit = state.options.remembered_frames as nat;
    let open = state.opened(id, meta, now);
    let pushed = choose|other: FrameId| reassembly::is_stalest(state.pending, other);
    let room = if !state.pending.contains_key(id) && state.pending.len()
        >= state.options.max_pending_frames {
        seq![pushed]
    } else {
        Seq::empty()
    };
    assert(state.remember(Seq::empty()) =~= state.remembered);
    assert(open.remembered == state.remember(room));
    if room.len() > 0 {
        reassembly::lemma_stalest_exists(state.pending);
        assert(room[0] == pushed);
    }
    assert forall|other: FrameId|
        (#[trigger] open.pending.contains_key(other) || room.contains(other)) <==> (
        state.pending.contains_key(other) || other == id) by {
        if other == pushed && room.len() > 0 {
            assert(room.contains(other));
        }
    }
    if next.stats.completed == open.stats.completed {
        room
    } else {
        reassembly::lemma_newest_adds_up(state.remembered, room, id, limit);
        let more = room.push(id);
        assert(more[room.len() as int] == id);
        assert forall|other: FrameId|
            (#[trigger] next.pending.contains_key(other) || more.contains(other)) <==> (
            state.pending.contains_key(other) || other == id) by {
            assert(open.pending.contains_key(other) || room.contains(other) <==> (
            state.pending.contains_key(other) || other == id));
            if room.contains(other) {
                let k = choose|k: int| 0 <= k < room.len() && room[k] == other;
                assert(more[k] == other);
            }
        }
        more
    }
}

/// A frame that was completed or given up on stays so: until as many others
/// have ended after it as are remembered, it is neither waiting nor opened
/// again, whatever arrives.
pub proof fn law_an_ended_frame_stays_ended(
    states: Seq<AssemblerState>,
    steps: Seq<Step>,
    frames: Seq<Option<Frame>>,
    id: FrameId,
    n: int,
)
    requires
        runs(states, steps, frames),
        states[0].valid(),
        states[0].options.max_pending_frames > 0,
        states[0].remembered.len() > 0,
        states[0].remembered.last() == id,
        0 <= n < states.len(),
        forall|i: int| 0 <= i < states.len() ==> counters_hold(#[trigger] states[i]),
        ended(states[n].stats) - ended(states[0].stats) < states[0].options.remembered_frames,
    ensures
        states[n].remembered.contains(id),
        !states[n].pending.contains_key(id),
{
    law_every_state_of_a_run_is_valid(states, steps, frames, n);
    lemma_place_in_memory(states, steps, frames, id, n);
}

/// The frame stands in memory as many places from the end as have ended since.
proof fn lemma_place_in_memory(
    states: Seq<AssemblerState>,
    steps: Seq<Step>,
    frames: Seq<Option<Frame>>,
    id: FrameId,
    n: int,
)
    requires
        runs(states, steps, frames),
        states[0].valid(),
        states[0].options.max_pending_frames > 0,
        states[0].remembered.len() > 0,
        states[0].remembered.last() == id,
        0 <= n < states.len(),
        forall|i: int| 0 <= i < states.len() ==> counters_hold(#[trigger] states[i]),
        ended(states[n].stats) - ended(states[0].stats) < states[0].options.remembered_frames,
    ensures
        ended(states[n].stats) >= ended(states[0].stats),
        ({
            let memory = states[n].remembered;
            let place = memory.len() - 1 - (ended(states[n].stats) - ended(states[0].stats));
            0 <= place < memory.len() && memory[place] == id
        }),
        states[n].remembered.contains(id),
    decreases n,
{
    if n > 0 {
        let state = states[n - 1];
        law_every_state_of_a_run_is_valid(states, steps, frames, n - 1);
        assert(takes(state, steps[n - 1], states[n], frames[n - 1]));
        assert(counters_hold(state));
        let more = lemma_step_remembers(state, steps[n - 1], states[n], frames[n - 1]);
        lemma_place_in_memory(states, steps, frames, id, n - 1);
        let before = ended(state.stats) - ended(states[0].stats);
        let all = state.remembered + more;
        let old_place = state.remembered.len() - 1 - before;
        assert(all[old_place] == id);
        let memory = states[n].remembered;
        let place = memory.len() - 1 - (before + more.len());
        assert(memory[place] == all[old_place]);
    }
}

/// The frames for which the first `n` steps of a run brought a record that was
/// not refused.
pub open spec fn accepted(states: Seq<AssemblerState>, steps: Seq<Step>, n: nat) -> Set<FrameId>
    decreases n,
{
    if n == 0 {
        Set::empty()
    } else {
        let before = accepted(states, steps, (n - 1) as nat);
        match accepts(states[n - 1], steps[n - 1]) {
            Some(id) => before.insert(id),
            None => before,
        }
    }
}

/// Every frame is accounted for, exactly once, over a whole run: as long as no
/// more frames have ended than are remembered, those completed, expired and
/// evicted, by the counters, and those that wait are together as many as the
/// frames for which a record was accepted.
pub proof fn law_every_frame_of_a_run_is_accounted_for(
    states: Seq<AssemblerState>,
    steps: Seq<Step>,
    frames: Seq<Option<Frame>>,
    n: int,
)
    requires
        runs(states, steps, frames),
        states[0] == AssemblerState::initial(states[0].options),
        states[0].options.max_pending_frames > 0,
        0 <= n < states.len(),
        forall|i: int| 0 <= i < n ==> counters_hold(#[trigger] states[i]),
        ended(states[n].stats) <= states[0].options.remembered_frames,
    ensures
        accepted(states, steps, n as nat).finite(),
        ended(states[n].stats) + states[n].pending.len() == accepted(states, steps, n as nat).len(),
{
    lemma_accepted_frames_are_known(states, steps, frames, n);
}

/// The frames a run accepted are those that wait and those remembered, and
/// they are as many as the counters and the waiting frames say.
proof fn lemma_accepted_frames_are_known(
    states: Seq<AssemblerState>,
    steps: Seq<Step>,
    frames: Seq<Option<Frame>>,
    n: int,
)
    requires
        runs(states, steps, frames),
        states[0] == AssemblerState::initial(states[0].options),
        states[0].options.max_pending_frames > 0,
        0 <= n < states.len(),
        forall|i: int| 0 <= i < n ==> counters_hold(#[trigger] states[i]),
        ended(states[n].stats) <= states[0].options.remembered_frames,
    ensures
        states[n].remembered.len() == ended(states[n].stats),
        accepted(states, steps, n as nat).finite(),
        accepted(states, steps, n as nat).len() == ended(states[n].stats)
            + states[n].pending.len(),
        forall|id: FrameId| #[trigger]
            accepted(states, steps, n as nat).contains(id) <==> {
                ||| states[n].pending.contains_key(id)
                ||| states[n].remembered.contains(id)
            },
    decreases n,
{
    assert(states[0].valid());
    if n > 0 {
        let state = states[n - 1];
        let next = states[n];
        let step = steps[n - 1];
        law_every_state_of_a_run_is_valid(states, steps, frames, n - 1);
        assert(takes(state, step, next, frames[n - 1]));
        assert(counters_hold(state));
        let more = lemma_step_remembers(state, step, next, frames[n - 1]);
        lemma_accepted_frames_are_known(states, steps, frames, n - 1);
        law_every_frame_is_accounted_for(state, step, next, frames[n - 1]);
        let before = accepted(states, steps, (n - 1) as nat);
        let after = accepted(states, steps, n as nat);
        // Nothing is forgotten yet.
        assert(next.remembered == state.remembered + more);
        assert forall|id: FrameId| #[trigger] after.contains(id) <==> {
            ||| next.pending.contains_key(id)
            ||| next.remembered.contains(id)
        } by {
            lemma_contains_joined(state.remembered, more, id);
            assert(next.pending.contains_key(id) || more.contains(id) <==> {
                ||| state.pending.contains_key(id)
                ||| accepts(state, step) == Some(id) && !state.remembered.contains(id)
            });
            assert(before.contains(id) <==> {
                ||| state.pending.contains_key(id)
                ||| state.remembered.contains(id)
            });
        }
        match accepts(state, step) {
            Some(id) => {
                assert(before.contains(id) <==> {
                    ||| state.pending.contains_key(id)
                    ||| state.remembered.contains(id)
                });
                assert(brings_a_new_frame(state, step) <==> !before.contains(id));
            },
            None => {
                assert(!brings_a_new_frame(state, step));
            },
        }
    }
}

/// What two sequences hold end to end is what either holds.
proof fn lemma_contains_joined(one: Seq<FrameId>, two: Seq<FrameId>, id: FrameId)
    ensures
        (one + two).contains(id) <==> one.contains(id) || two.contains(id),
{
    let all = one + two;
    if one.contains(id) {
        let k = choose|k: int| 0 <= k < one.len() && one[k] == id;
        assert(all[k] == id);
    }
    if two.contains(id) {
        let k = choose|k: int| 0 <= k < two.len() && two[k] == id;
        assert(all[one.len() + k] == id);
    }
    if all.contains(id) {
        let k = choose|k: int| 0 <= k < all.len() && all[k] == id;
        if k < one.len() {
            assert(one[k] == id);
        } else {
            assert(two[k - one.len()] == id);
        }
    }
}

} // verus!
