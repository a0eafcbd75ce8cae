//! What parity is for, told from the producer's side: an access unit cut into
//! pieces, shards that are the XOR of the pieces a stripe holds, and what comes
//! out at the other end when some of that is lost.

use crate::clock::Instant;
use crate::erasure;
use crate::frame;
use crate::frame::{Frame, Waiting};
use crate::keys::FrameId;
use crate::laws;
use crate::laws::Step;
use crate::reassembly;
use crate::reassembly::AssemblerState;
use crate::records::{Chunk, FrameMeta, Parity, Shard};
use vstd::prelude::*;

verus! {

/// The XOR, at one offset, of the pieces whose number leaves `stripe` modulo
/// `stripes`. A piece too short to reach the offset counts as zero.
pub open spec fn xor_at(pieces: Seq<Seq<u8>>, stripes: int, stripe: int, offset: int) -> u8
    decreases pieces.len(),
{
    if pieces.len() == 0 {
        0
    } else {
        let rest = xor_at(pieces.drop_last(), stripes, stripe, offset);
        if (pieces.len() - 1) % stripes == stripe && offset < pieces.last().len() {
            rest ^ pieces.last()[offset]
        } else {
            rest
        }
    }
}

/// The shard a producer makes for a stripe of an access unit: of each piece
/// whose number leaves `stripe` modulo the number of stripes it tells the true
/// length, and its bytes are the XOR of those pieces.
pub open spec fn made_by_producer(shard: Shard, pieces: Seq<Seq<u8>>, stripe: u16) -> bool {
    &&& stripe < shard.parity_count
    &&& forall|i: int|
        0 <= i < pieces.len() && i % shard.parity_count as int == stripe ==> {
            &&& 0 < (#[trigger] pieces[i]).len() <= shard.payload.len()
            &&& i < pieces.len() - 1 ==> pieces[i].len() == shard.chunk_payload_bytes
            &&& i == pieces.len() - 1 ==> pieces[i].len() == shard.last_chunk_payload_bytes
        }
    &&& forall|offset: int|
        0 <= offset < shard.payload.len() ==> #[trigger] shard.payload[offset] == xor_at(
            pieces,
            shard.parity_count as int,
            stripe as int,
            offset,
        )
}

/// All that is held of a frame is the producer's: the chunks are pieces of the
/// access unit, each at its place, and the shards are made of it.
pub open spec fn true_to(waiting: Waiting, meta: FrameMeta, pieces: Seq<Seq<u8>>) -> bool {
    &&& waiting.meta == meta
    &&& meta.chunk_count == pieces.len()
    &&& forall|i: u16| #[trigger]
        waiting.chunks.contains_key(i) ==> i < pieces.len() && waiting.chunks[i] == pieces[i as int]
    &&& forall|s: u16| #[trigger]
        waiting.parity.contains_key(s) ==> made_by_producer(waiting.parity[s], pieces, s)
}

/// A step brings nothing false of the frame: a chunk of it is its piece of the
/// access unit, and a shard of it is made of the pieces.
pub open spec fn faithful(
    step: Step,
    id: FrameId,
    meta: FrameMeta,
    pieces: Seq<Seq<u8>>,
) -> bool {
    match step {
        Step::Chunk { chunk, verdict, now } => chunk.id == id && verdict is Ok ==> {
            &&& chunk.meta == meta
            &&& chunk.index < pieces.len()
            &&& chunk.payload == pieces[chunk.index as int]
        },
        Step::Parity { parity, verdict, now } => parity.id == id && verdict is Ok ==> {
            &&& parity.meta == meta
            &&& made_by_producer(parity.shard, pieces, parity.stripe)
        },
        _ => true,
    }
}

/// The pieces of an access unit by their numbers.
spec fn by_number(pieces: Seq<Seq<u8>>) -> Map<u16, Seq<u8>> {
    Map::new(|i: u16| i < pieces.len(), |i: u16| pieces[i as int])
}

/// The XOR of a stripe is that of the pieces in it.
proof fn lemma_xor_is_of_the_stripe(
    pieces: Seq<Seq<u8>>,
    parity_count: u16,
    stripe: u16,
    n: nat,
    offset: int,
)
    requires
        n <= pieces.len() < frame::indices(),
        0 < parity_count,
    ensures
        frame::stripe_byte(by_number(pieces), stripe, parity_count, n, offset) == xor_at(
            pieces.take(n as int),
            parity_count as int,
            stripe as int,
            offset,
        ),
    decreases n,
{
    if n > 0 {
        lemma_xor_is_of_the_stripe(pieces, parity_count, stripe, (n - 1) as nat, offset);
        assert(pieces.take(n as int).drop_last() =~= pieces.take(n - 1));
        assert(pieces.take(n as int).last() == pieces[n - 1]);
    }
}

/// A producer's shard covers its stripe.
proof fn lemma_made_covers(shard: Shard, pieces: Seq<Seq<u8>>, stripe: u16)
    requires
        pieces.len() < frame::indices(),
        made_by_producer(shard, pieces, stripe),
    ensures
        erasure::covers(shard, by_number(pieces), stripe, pieces.len() as u16),
{
    let count = pieces.len() as u16;
    assert forall|index: u16| #[trigger]
        frame::in_stripe(index, stripe, shard.parity_count, count) implies {
        &&& by_number(pieces).contains_key(index)
        &&& 0 < by_number(pieces)[index].len() <= shard.payload.len()
        &&& by_number(pieces)[index].len() == if index == count - 1 {
            shard.last_chunk_payload_bytes
        } else {
            shard.chunk_payload_bytes
        }
    } by {
        assert(pieces[index as int].len() > 0);
    }
    assert forall|offset: int| 0 <= offset < shard.payload.len() implies #[trigger] shard.payload[offset]
        == frame::stripe_byte(
        by_number(pieces),
        stripe,
        shard.parity_count,
        count as nat,
        offset,
    ) by {
        lemma_xor_is_of_the_stripe(pieces, shard.parity_count, stripe, count as nat, offset);
        assert(pieces.take(count as int) =~= pieces);
    }
}

/// Each stripe gives back exactly one lost chunk: when of the chunks whose
/// number leaves `stripe` modulo the number of stripes all but one are on hand,
/// and the producer's shard is, that one comes back byte for byte, and nothing
/// else changes but the count of chunks that came out of parity.
pub proof fn law_a_stripe_gives_back_its_lost_piece(
    waiting: Waiting,
    pieces: Seq<Seq<u8>>,
    stripe: u16,
    lost: u16,
)
    requires
        waiting.valid(),
        true_to(waiting, waiting.meta, pieces),
        waiting.parity.contains_key(stripe),
        lost < pieces.len(),
        lost as int % waiting.parity[stripe].parity_count as int == stripe,
        !waiting.chunks.contains_key(lost),
        forall|i: u16|
            i < pieces.len() && i as int % waiting.parity[stripe].parity_count as int == stripe && i
                != lost ==> #[trigger] waiting.chunks.contains_key(i),
    ensures
        waiting.repair_stripe(stripe) == (Waiting {
            chunks: waiting.chunks.insert(lost, pieces[lost as int]),
            repaired: (waiting.repaired + 1) as u16,
            ..waiting
        }),
{
    let frame = by_number(pieces);
    assert(made_by_producer(waiting.parity[stripe], pieces, stripe));
    lemma_made_covers(waiting.parity[stripe], pieces, stripe);
    assert(waiting.lacks_only(stripe, lost));
    erasure::law_parity_gives_back_the_lost_chunk(waiting, frame, stripe, lost);
}

/// Repair by one stripe brings nothing false.
proof fn lemma_repair_stripe_true(
    waiting: Waiting,
    meta: FrameMeta,
    pieces: Seq<Seq<u8>>,
    stripe: u16,
)
    requires
        true_to(waiting, meta, pieces),
    ensures
        true_to(waiting.repair_stripe(stripe), meta, pieces),
{
    if exists|index: u16| waiting.can_recover(stripe, index) {
        let lost = choose|index: u16| waiting.can_recover(stripe, index);
        assert(made_by_producer(waiting.parity[stripe], pieces, stripe));
        lemma_made_covers(waiting.parity[stripe], pieces, stripe);
        assert(waiting.lacks_only(stripe, lost));
        erasure::law_parity_gives_back_the_lost_chunk(waiting, by_number(pieces), stripe, lost);
    }
}

/// Repair brings nothing false.
proof fn lemma_repair_true(waiting: Waiting, meta: FrameMeta, pieces: Seq<Seq<u8>>, n: nat)
    requires
        true_to(waiting, meta, pieces),
    ensures
        true_to(waiting.repair_below(n), meta, pieces),
    decreases n,
{
    if n > 0 {
        lemma_repair_true(waiting, meta, pieces, (n - 1) as nat);
        lemma_repair_stripe_true(
            waiting.repair_below((n - 1) as nat),
            meta,
            pieces,
            (n - 1) as u16,
        );
    }
}

/// A complete frame of which nothing false is held is the access unit.
proof fn lemma_complete_is_whole(waiting: Waiting, meta: FrameMeta, pieces: Seq<Seq<u8>>)
    requires
        true_to(waiting, meta, pieces),
        waiting.chunks.dom().finite(),
        waiting.complete(),
    ensures
        waiting.bytes() == pieces.flatten(),
{
    laws::lemma_full_range(waiting.chunks, meta.chunk_count);
    laws::law_an_access_unit_is_its_chunks_in_order(waiting.chunks, pieces);
}

/// What settling makes of a frame of which nothing false is held.
proof fn lemma_settled_true(
    open: AssemblerState,
    id: FrameId,
    waiting: Waiting,
    meta: FrameMeta,
    pieces: Seq<Seq<u8>>,
)
    requires
        waiting.valid(),
        true_to(waiting, meta, pieces),
    ensures
        ({
            let (next, frame) = open.settled(id, waiting);
            &&& next.pending.contains_key(id) ==> true_to(next.pending[id], meta, pieces)
            &&& frame is Some ==> frame->0.bytes == pieces.flatten()
        }),
{
    lemma_repair_true(waiting, meta, pieces, frame::indices());
    frame::lemma_repair_valid(waiting, frame::indices());
    if waiting.complete() {
        lemma_complete_is_whole(waiting, meta, pieces);
    } else if waiting.repaired_by_parity().complete() {
        lemma_complete_is_whole(waiting.repaired_by_parity(), meta, pieces);
    }
}

/// Nothing false is ever handed on: as long as what is held of a frame is the
/// producer's, so is what is held after any step that brings nothing false of
/// it, and if the step hands the frame on its bytes are the access unit.
pub proof fn law_a_step_hands_on_what_the_producer_sent(
    state: AssemblerState,
    step: Step,
    next: AssemblerState,
    handed_on: Option<Frame>,
    id: FrameId,
    meta: FrameMeta,
    pieces: Seq<Seq<u8>>,
)
    requires
        state.valid(),
        state.options.max_pending_frames > 0,
        laws::takes(state, step, next, handed_on),
        meta.chunk_count == pieces.len(),
        state.pending.contains_key(id) ==> true_to(state.pending[id], meta, pieces),
        faithful(step, id, meta, pieces),
    ensures
        next.pending.contains_key(id) ==> true_to(next.pending[id], meta, pieces),
        handed_on is Some && handed_on->0.id == id ==> handed_on->0.bytes == pieces.flatten(),
{
    match step {
        Step::Chunk { chunk, verdict, now } => {
            if verdict is Ok && !state.remembered.contains(chunk.id) && !state.contradicts(
                chunk.id,
                chunk.meta,
            ) {
                let open = state.opened(chunk.id, chunk.meta, now);
                let waiting = open.pending[chunk.id];
                let grown = Waiting {
                    chunks: waiting.chunks.insert(chunk.index, chunk.payload),
                    ..waiting
                };
                reassembly::lemma_opened_valid(state, chunk.id, chunk.meta, now);
                if chunk.id == id {
                    assert(true_to(waiting, meta, pieces));
                    if !waiting.chunks.contains_key(chunk.index) {
                        frame::lemma_own_chunks_grow(waiting, chunk.index, chunk.payload);
                        lemma_settled_true(open, id, grown, meta, pieces);
                    }
                } else {
                    reassembly::lemma_with_room_valid(state);
                }
            }
        },
        Step::Parity { parity, verdict, now } => {
            if verdict is Ok && !state.remembered.contains(parity.id) && !state.contradicts(
                parity.id,
                parity.meta,
            ) {
                let open = state.opened(parity.id, parity.meta, now);
                let waiting = open.pending[parity.id];
                let grown = Waiting {
                    parity: waiting.parity.insert(parity.stripe, parity.shard),
                    ..waiting
                };
                reassembly::lemma_opened_valid(state, parity.id, parity.meta, now);
                if parity.id == id {
                    assert(true_to(waiting, meta, pieces));
                    assert(grown.own_chunks() == waiting.own_chunks());
                    lemma_settled_true(open, id, grown, meta, pieces);
                } else {
                    reassembly::lemma_with_room_valid(state);
                }
            }
        },
        _ => {},
    }
}

/// What the producer sent is what the renderer is handed: in any run, whatever
/// else arrives, is lost, is late or comes twice, and in whatever order, a frame
/// of which no record tells a lie is handed on with the producer's bytes, each
/// time it is handed on at all.
pub proof fn law_a_frame_handed_on_is_what_the_producer_sent(
    states: Seq<AssemblerState>,
    steps: Seq<Step>,
    frames: Seq<Option<Frame>>,
    id: FrameId,
    meta: FrameMeta,
    pieces: Seq<Seq<u8>>,
    n: int,
)
    requires
        laws::runs(states, steps, frames),
        states[0].valid(),
        states[0].options.max_pending_frames > 0,
        !states[0].pending.contains_key(id),
        meta.chunk_count == pieces.len(),
        forall|i: int| 0 <= i < steps.len() ==> faithful(#[trigger] steps[i], id, meta, pieces),
        0 <= n < frames.len(),
        frames[n] is Some,
        frames[n]->0.id == id,
    ensures
        frames[n]->0.bytes == pieces.flatten(),
{
    lemma_run_true(states, steps, frames, id, meta, pieces, n);
    laws::law_every_state_of_a_run_is_valid(states, steps, frames, n);
    assert(laws::takes(states[n], steps[n], states[n + 1], frames[n]));
    law_a_step_hands_on_what_the_producer_sent(
        states[n],
        steps[n],
        states[n + 1],
        frames[n],
        id,
        meta,
        pieces,
    );
}

proof fn lemma_run_true(
    states: Seq<AssemblerState>,
    steps: Seq<Step>,
    frames: Seq<Option<Frame>>,
    id: FrameId,
    meta: FrameMeta,
    pieces: Seq<Seq<u8>>,
    n: int,
)
    requires
        laws::runs(states, steps, frames),
        states[0].valid(),
        states[0].options.max_pending_frames > 0,
        !states[0].pending.contains_key(id),
        meta.chunk_count == pieces.len(),
        forall|i: int| 0 <= i < steps.len() ==> faithful(#[trigger] steps[i], id, meta, pieces),
        0 <= n < states.len(),
    ensures
        states[n].pending.contains_key(id) ==> true_to(states[n].pending[id], meta, pieces),
    decreases n,
{
    if n > 0 {
        lemma_run_true(states, steps, frames, id, meta, pieces, n - 1);
        laws::law_every_state_of_a_run_is_valid(states, steps, frames, n - 1);
        assert(laws::takes(states[n - 1], steps[n - 1], states[n], frames[n - 1]));
        law_a_step_hands_on_what_the_producer_sent(
            states[n - 1],
            steps[n - 1],
            states[n],
            frames[n - 1],
            id,
            meta,
            pieces,
        );
    }
}

/// The chunk is not among those on hand, nor is it the one at `but`.
pub open spec fn still_lacks(
    waiting: Waiting,
    pieces: Seq<Seq<u8>>,
    but: Option<u16>,
    i: u16,
) -> bool {
    i < pieces.len() && !waiting.chunks.contains_key(i) && but != Some(i)
}

/// No stripe lacks more than one chunk, and each that lacks one has its shard:
/// of the chunks still lacking, no two leave the same modulo the number of
/// stripes, and what each leaves is the number of a shard on hand.
pub open spec fn within_reach(
    waiting: Waiting,
    pieces: Seq<Seq<u8>>,
    stripes: u16,
    chunk: Option<u16>,
    shard: Option<u16>,
) -> bool {
    &&& 0 < stripes
    &&& forall|s: u16| #[trigger]
        waiting.parity.contains_key(s) ==> waiting.parity[s].parity_count == stripes
    &&& forall|i: u16| #[trigger]
        still_lacks(waiting, pieces, chunk, i) ==> {
            let s = (i as int % stripes as int) as u16;
            waiting.parity.contains_key(s) || shard == Some(s)
        }
    &&& forall|i: u16, j: u16|
        #![trigger still_lacks(waiting, pieces, chunk, i), still_lacks(waiting, pieces, chunk, j)]
        still_lacks(waiting, pieces, chunk, i) && still_lacks(waiting, pieces, chunk, j) && i as int
            % stripes as int == j as int % stripes as int ==> i == j
}

/// A frame within reach is repairable.
proof fn lemma_reach_is_repairable(
    grown: Waiting,
    meta: FrameMeta,
    pieces: Seq<Seq<u8>>,
    stripes: u16,
)
    requires
        true_to(grown, meta, pieces),
        within_reach(grown, pieces, stripes, None, None),
    ensures
        erasure::repairable(grown, by_number(pieces), stripes),
{
    let count = meta.chunk_count;
    assert forall|stripe: u16| #[trigger] grown.parity.contains_key(stripe) implies {
        &&& grown.parity[stripe].parity_count == stripes
        &&& erasure::covers(grown.parity[stripe], by_number(pieces), stripe, count)
    } by {
        lemma_made_covers(grown.parity[stripe], pieces, stripe);
    }
    assert forall|index: u16| #[trigger] erasure::lacking(grown, index) implies {
        let stripe = frame::stripe_of(index as int, stripes) as u16;
        &&& grown.parity.contains_key(stripe)
        &&& grown.lacks_only(stripe, index)
    } by {
        assert(still_lacks(grown, pieces, None, index));
        let stripe = frame::stripe_of(index as int, stripes) as u16;
        vstd::arithmetic::div_mod::lemma_mod_bound(index as int, stripes as int);
        assert forall|other: u16| #[trigger]
            frame::in_stripe(other, stripe, stripes, count) && other != index implies grown.chunks.contains_key(
            other,
        ) by {
            if !grown.chunks.contains_key(other) {
                assert(still_lacks(grown, pieces, None, other));
            }
        }
    }
}

/// Each chunk that comes out of parity is counted.
proof fn lemma_repair_counts(waiting: Waiting, n: nat)
    requires
        waiting.valid(),
    ensures
        waiting.repair_below(n).chunks.len() - waiting.chunks.len() == waiting.repair_below(
            n,
        ).repaired - waiting.repaired,
    decreases n,
{
    if n > 0 {
        lemma_repair_counts(waiting, (n - 1) as nat);
        frame::lemma_repair_valid(waiting, (n - 1) as nat);
        let before = waiting.repair_below((n - 1) as nat);
        let stripe = (n - 1) as u16;
        frame::lemma_repair_stripe_valid(before, stripe);
        if exists|index: u16| before.can_recover(stripe, index) {
            let index = choose|index: u16| before.can_recover(stripe, index);
            assert(before.lacks_only(stripe, index));
        }
    }
}

/// What comes of a frame once what is held of it is within reach of parity.
pub open spec fn comes_through(
    state: AssemblerState,
    id: FrameId,
    meta: FrameMeta,
    pieces: Seq<Seq<u8>>,
    came_itself: nat,
    next: AssemblerState,
    handed_on: Option<Frame>,
) -> bool {
    &&& !next.pending.contains_key(id)
    &&& next.stats.completed == state.stats.completed.wrapping_add(1)
    &&& state.waiting_for_keyframe && !meta.keyframe ==> handed_on is None
    &&& !state.waiting_for_keyframe || meta.keyframe ==> {
        &&& handed_on is Some
        &&& handed_on->0.id == id
        &&& handed_on->0.bytes == pieces.flatten()
        &&& handed_on->0.repaired_chunks == state.pending[id].repaired + pieces.len() - came_itself
    }
}

proof fn lemma_settled_comes_through(
    state: AssemblerState,
    id: FrameId,
    grown: Waiting,
    meta: FrameMeta,
    pieces: Seq<Seq<u8>>,
    stripes: u16,
)
    requires
        state.pending.contains_key(id),
        grown.valid(),
        grown.repaired == state.pending[id].repaired,
        true_to(grown, meta, pieces),
        within_reach(grown, pieces, stripes, None, None),
    ensures
        ({
            let (next, handed_on) = state.settled(id, grown);
            comes_through(state, id, meta, pieces, grown.chunks.len(), next, handed_on)
        }),
{
    lemma_reach_is_repairable(grown, meta, pieces, stripes);
    erasure::law_parity_completes_a_frame(grown, by_number(pieces), stripes);
    frame::lemma_repair_keeps(grown, frame::indices());
    lemma_settled_true(state, id, grown, meta, pieces);
    lemma_repair_counts(grown, frame::indices());
}

/// Parity stands in for what is lost: when a shard arrives and no stripe then
/// lacks more than one chunk, nor one that has no shard, the frame is complete,
/// with the producer's bytes, and says how many chunks came out of parity. It
/// reaches the renderer unless a reference was lost and it is no keyframe.
pub proof fn law_a_shard_within_reach_completes_the_frame(
    state: AssemblerState,
    parity: Parity,
    now: Instant,
    pieces: Seq<Seq<u8>>,
)
    requires
        state.valid(),
        state.pending.contains_key(parity.id),
        true_to(state.pending[parity.id], parity.meta, pieces),
        made_by_producer(parity.shard, pieces, parity.stripe),
        within_reach(
            state.pending[parity.id],
            pieces,
            parity.shard.parity_count,
            None,
            Some(parity.stripe),
        ),
    ensures
        ({
            let (next, result) = state.insert_parity(parity, Ok(()), now);
            comes_through(
                state,
                parity.id,
                parity.meta,
                pieces,
                state.pending[parity.id].chunks.len(),
                next,
                laws::handed(result),
            )
        }),
{
    let waiting = state.pending[parity.id];
    let stripes = parity.shard.parity_count;
    let grown = Waiting { parity: waiting.parity.insert(parity.stripe, parity.shard), ..waiting };
    assert(grown.own_chunks() == waiting.own_chunks());
    assert forall|i: u16| #[trigger] still_lacks(grown, pieces, None, i) implies {
        let s = (i as int % stripes as int) as u16;
        grown.parity.contains_key(s)
    } by {
        assert(still_lacks(waiting, pieces, None, i));
    }
    assert forall|i: u16, j: u16|
        #![trigger still_lacks(grown, pieces, None, i), still_lacks(grown, pieces, None, j)]
        still_lacks(grown, pieces, None, i) && still_lacks(grown, pieces, None, j) && i as int
            % stripes as int == j as int % stripes as int implies i == j by {
        assert(still_lacks(waiting, pieces, None, i));
        assert(still_lacks(waiting, pieces, None, j));
    }
    lemma_settled_comes_through(state, parity.id, grown, parity.meta, pieces, stripes);
}

/// A chunk that leaves no stripe lacking more than one chunk, nor one that has
/// no shard, completes the frame in the same way.
pub proof fn law_a_chunk_within_reach_completes_the_frame(
    state: AssemblerState,
    chunk: Chunk,
    now: Instant,
    pieces: Seq<Seq<u8>>,
    stripes: u16,
)
    requires
        state.valid(),
        state.pending.contains_key(chunk.id),
        true_to(state.pending[chunk.id], chunk.meta, pieces),
        chunk.index < pieces.len(),
        chunk.payload == pieces[chunk.index as int],
        !state.pending[chunk.id].chunks.contains_key(chunk.index),
        within_reach(state.pending[chunk.id], pieces, stripes, Some(chunk.index), None),
    ensures
        ({
            let (next, result) = state.insert_chunk(chunk, Ok(()), now);
            comes_through(
                state,
                chunk.id,
                chunk.meta,
                pieces,
                state.pending[chunk.id].chunks.len() + 1,
                next,
                laws::handed(result),
            )
        }),
{
    let waiting = state.pending[chunk.id];
    let grown = Waiting { chunks: waiting.chunks.insert(chunk.index, chunk.payload), ..waiting };
    frame::lemma_own_chunks_grow(waiting, chunk.index, chunk.payload);
    assert forall|i: u16| #[trigger] still_lacks(grown, pieces, None, i) implies {
        let s = (i as int % stripes as int) as u16;
        grown.parity.contains_key(s)
    } by {
        assert(still_lacks(waiting, pieces, Some(chunk.index), i));
    }
    assert forall|i: u16, j: u16|
        #![trigger still_lacks(grown, pieces, None, i), still_lacks(grown, pieces, None, j)]
        still_lacks(grown, pieces, None, i) && still_lacks(grown, pieces, None, j) && i as int
            % stripes as int == j as int % stripes as int implies i == j by {
        assert(still_lacks(waiting, pieces, Some(chunk.index), i));
        assert(still_lacks(waiting, pieces, Some(chunk.index), j));
    }
    lemma_settled_comes_through(state, chunk.id, grown, chunk.meta, pieces, stripes);
}

/// Two chunks lost that leave the same modulo the number of stripes stay lost:
/// whatever shard arrives, the frame goes on waiting for both.
pub proof fn law_two_lost_of_a_stripe_stay_lost(
    state: AssemblerState,
    parity: Parity,
    now: Instant,
    one: u16,
    two: u16,
)
    requires
        state.valid(),
        state.pending.contains_key(parity.id),
        state.pending[parity.id].meta == parity.meta,
        0 < parity.shard.parity_count,
        forall|s: u16| #[trigger]
            state.pending[parity.id].parity.contains_key(s)
                ==> state.pending[parity.id].parity[s].parity_count == parity.shard.parity_count,
        forall|i: u16| #[trigger]
            state.pending[parity.id].chunks.contains_key(i) ==> i < parity.meta.chunk_count,
        one != two,
        one < parity.meta.chunk_count,
        two < parity.meta.chunk_count,
        one as int % parity.shard.parity_count as int == two as int
            % parity.shard.parity_count as int,
        !state.pending[parity.id].chunks.contains_key(one),
        !state.pending[parity.id].chunks.contains_key(two),
    ensures
        ({
            let (next, result) = state.insert_parity(parity, Ok(()), now);
            &&& laws::handed(result) is None
            &&& next.pending.contains_key(parity.id)
            &&& !next.pending[parity.id].chunks.contains_key(one)
            &&& !next.pending[parity.id].chunks.contains_key(two)
        }),
{
    let waiting = state.pending[parity.id];
    let grown = Waiting { parity: waiting.parity.insert(parity.stripe, parity.shard), ..waiting };
    assert(grown.own_chunks() == waiting.own_chunks());
    let mended = grown.repaired_by_parity();
    lemma_both_stay_lost(grown, parity.shard.parity_count, one, two, frame::indices());
    frame::lemma_repair_valid(grown, frame::indices());
    frame::lemma_repair_keeps(grown, frame::indices());
    if mended.complete() {
        laws::lemma_full_range(mended.chunks, parity.meta.chunk_count);
    }
}

proof fn lemma_both_stay_lost(waiting: Waiting, stripes: u16, one: u16, two: u16, n: nat)
    requires
        n <= frame::indices(),
        forall|s: u16| #[trigger]
            waiting.parity.contains_key(s) ==> waiting.parity[s].parity_count == stripes,
        forall|i: u16| #[trigger]
            waiting.chunks.contains_key(i) ==> i < waiting.meta.chunk_count,
        one != two,
        one < waiting.meta.chunk_count,
        two < waiting.meta.chunk_count,
        one as int % stripes as int == two as int % stripes as int,
        !waiting.chunks.contains_key(one),
        !waiting.chunks.contains_key(two),
    ensures
        !waiting.repair_below(n).chunks.contains_key(one),
        !waiting.repair_below(n).chunks.contains_key(two),
        forall|i: u16| #[trigger]
            waiting.repair_below(n).chunks.contains_key(i) ==> i < waiting.meta.chunk_count,
    decreases n,
{
    if n > 0 {
        lemma_both_stay_lost(waiting, stripes, one, two, (n - 1) as nat);
        frame::lemma_repair_keeps(waiting, (n - 1) as nat);
        let before = waiting.repair_below((n - 1) as nat);
        let stripe = (n - 1) as u16;
        if exists|index: u16| before.can_recover(stripe, index) {
            let index = choose|index: u16| before.can_recover(stripe, index);
            let count = before.meta.chunk_count;
            assert(frame::in_stripe(index, stripe, stripes, count));
            if index == one {
                assert(frame::in_stripe(two, stripe, stripes, count));
            }
            if index == two {
                assert(frame::in_stripe(one, stripe, stripes, count));
            }
        }
    }
}

/// Once repair has had its turn, a chunk that was the only one its stripe
/// lacked is on hand.
proof fn lemma_gap_is_filled(
    waiting: Waiting,
    meta: FrameMeta,
    pieces: Seq<Seq<u8>>,
    stripe: u16,
    lost: u16,
    n: nat,
)
    requires
        stripe < n <= frame::indices(),
        true_to(waiting, meta, pieces),
        waiting.parity.contains_key(stripe),
        lost < pieces.len(),
        lost as int % waiting.parity[stripe].parity_count as int == stripe,
        forall|i: u16|
            i < pieces.len() && i as int % waiting.parity[stripe].parity_count as int == stripe && i
                != lost ==> #[trigger] waiting.chunks.contains_key(i),
    ensures
        waiting.repair_below(n).chunks.contains_key(lost),
    decreases n,
{
    let before = waiting.repair_below((n - 1) as nat);
    frame::lemma_repair_keeps(waiting, (n - 1) as nat);
    if n - 1 > stripe {
        lemma_gap_is_filled(waiting, meta, pieces, stripe, lost, (n - 1) as nat);
    } else if !before.chunks.contains_key(lost) {
        lemma_chunks_stay(waiting, (n - 1) as nat);
        lemma_repair_true(waiting, meta, pieces, (n - 1) as nat);
        assert(made_by_producer(before.parity[stripe], pieces, stripe));
        lemma_made_covers(before.parity[stripe], pieces, stripe);
        assert forall|other: u16| #[trigger]
            frame::in_stripe(
                other,
                stripe,
                before.parity[stripe].parity_count,
                before.meta.chunk_count,
            ) && other != lost implies before.chunks.contains_key(other) by {
            assert(waiting.chunks.contains_key(other));
        }
        assert(before.lacks_only(stripe, lost));
        erasure::law_parity_gives_back_the_lost_chunk(before, by_number(pieces), stripe, lost);
    }
}

proof fn lemma_chunks_stay(waiting: Waiting, n: nat)
    ensures
        forall|i: u16| #[trigger]
            waiting.chunks.contains_key(i) ==> waiting.repair_below(n).chunks.contains_key(i),
    decreases n,
{
    if n > 0 {
        lemma_chunks_stay(waiting, (n - 1) as nat);
    }
}

/// Parity gives back what it can at once, also where that does not complete the
/// frame: after a shard arrives, a chunk that was the only one lacking among
/// those that leave the same modulo the number of stripes of a shard on hand is
/// on hand, as the producer made it, if the frame still waits.
pub proof fn law_a_shard_gives_back_what_it_can(
    state: AssemblerState,
    parity: Parity,
    now: Instant,
    pieces: Seq<Seq<u8>>,
    lost: u16,
)
    requires
        state.valid(),
        state.pending.contains_key(parity.id),
        true_to(state.pending[parity.id], parity.meta, pieces),
        made_by_producer(parity.shard, pieces, parity.stripe),
        lost < pieces.len(),
        lost as int % parity.shard.parity_count as int == parity.stripe,
        forall|i: u16|
            i < pieces.len() && i as int % parity.shard.parity_count as int == parity.stripe && i
                != lost ==> #[trigger] state.pending[parity.id].chunks.contains_key(i),
    ensures
        ({
            let next = state.insert_parity(parity, Ok(()), now).0;
            next.pending.contains_key(parity.id) ==> {
                &&& next.pending[parity.id].chunks.contains_key(lost)
                &&& next.pending[parity.id].chunks[lost] == pieces[lost as int]
            }
        }),
{
    let waiting = state.pending[parity.id];
    let grown = Waiting { parity: waiting.parity.insert(parity.stripe, parity.shard), ..waiting };
    assert forall|i: u16|
        i < pieces.len() && i as int % grown.parity[parity.stripe].parity_count as int
            == parity.stripe && i != lost implies #[trigger] grown.chunks.contains_key(i) by {
        assert(waiting.chunks.contains_key(i));
    }
    lemma_gap_is_filled(grown, parity.meta, pieces, parity.stripe, lost, frame::indices());
    lemma_repair_true(grown, parity.meta, pieces, frame::indices());
}

/// A chunk that leaves only one lacking among those that leave the same modulo
/// the number of stripes of a shard on hand brings that one with it.
pub proof fn law_a_chunk_lets_its_stripe_give_back_the_last(
    state: AssemblerState,
    chunk: Chunk,
    now: Instant,
    pieces: Seq<Seq<u8>>,
    stripe: u16,
    lost: u16,
)
    requires
        state.valid(),
        state.pending.contains_key(chunk.id),
        true_to(state.pending[chunk.id], chunk.meta, pieces),
        chunk.index < pieces.len(),
        chunk.payload == pieces[chunk.index as int],
        !state.pending[chunk.id].chunks.contains_key(chunk.index),
        state.pending[chunk.id].parity.contains_key(stripe),
        lost < pieces.len(),
        lost as int % state.pending[chunk.id].parity[stripe].parity_count as int == stripe,
        forall|i: u16|
            i < pieces.len() && i as int
                % state.pending[chunk.id].parity[stripe].parity_count as int == stripe && i != lost
                && i != chunk.index ==> #[trigger] state.pending[chunk.id].chunks.contains_key(i),
    ensures
        ({
            let next = state.insert_chunk(chunk, Ok(()), now).0;
            next.pending.contains_key(chunk.id) ==> {
                &&& next.pending[chunk.id].chunks.contains_key(lost)
                &&& next.pending[chunk.id].chunks[lost] == pieces[lost as int]
            }
        }),
{
    let waiting = state.pending[chunk.id];
    let grown = Waiting { chunks: waiting.chunks.insert(chunk.index, chunk.payload), ..waiting };
    assert forall|i: u16|
        i < pieces.len() && i as int % grown.parity[stripe].parity_count as int == stripe && i
            != lost implies #[trigger] grown.chunks.contains_key(i) by {
        if i != chunk.index {
            assert(waiting.chunks.contains_key(i));
        }
    }
    lemma_gap_is_filled(grown, chunk.meta, pieces, stripe, lost, frame::indices());
    lemma_repair_true(grown, chunk.meta, pieces, frame::indices());
}

/// A frame of one chunk is made whole by a shard alone, also where the shard is
/// the first that is heard of it.
pub proof fn law_a_shard_alone_makes_a_frame_of_one_chunk(
    state: AssemblerState,
    parity: Parity,
    now: Instant,
    piece: Seq<u8>,
)
    requires
        state.valid(),
        state.options.max_pending_frames > 0,
        !state.remembered.contains(parity.id),
        !state.pending.contains_key(parity.id),
        parity.meta.chunk_count == 1,
        parity.stripe == 0,
        made_by_producer(parity.shard, seq![piece], 0),
    ensures
        ({
            let (next, result) = state.insert_parity(parity, Ok(()), now);
            let frame = laws::handed(result);
            let waits = state.waiting_for_keyframe || state.pending.len()
                >= state.options.max_pending_frames;
            &&& !next.pending.contains_key(parity.id)
            &&& next.stats.completed == state.stats.completed.wrapping_add(1)
            &&& frame is Some <==> parity.meta.keyframe || !waits
            &&& frame is Some ==> frame->0.bytes == piece && frame->0.repaired_chunks == 1
        }),
{
    let pieces = seq![piece];
    let open = state.opened(parity.id, parity.meta, now);
    let waiting = open.pending[parity.id];
    let stripes = parity.shard.parity_count;
    reassembly::lemma_opened_valid(state, parity.id, parity.meta, now);
    let grown = Waiting { parity: waiting.parity.insert(parity.stripe, parity.shard), ..waiting };
    assert(grown.own_chunks() == waiting.own_chunks());
    assert(true_to(grown, parity.meta, pieces));
    assert forall|i: u16| #[trigger] still_lacks(grown, pieces, None, i) implies {
        let s = (i as int % stripes as int) as u16;
        grown.parity.contains_key(s)
    } by {
        vstd::arithmetic::div_mod::lemma_small_mod(0, stripes as nat);
    }
    lemma_settled_comes_through(open, parity.id, grown, parity.meta, pieces, stripes);
    pieces.lemma_flatten_one_element();
    assert(pieces.flatten() =~= piece);
}

/// The chunks on hand among the first `n`, by their numbers; nothing for one that
/// is not.
pub open spec fn on_hand(chunks: Map<u16, Seq<u8>>, n: nat) -> Seq<Seq<u8>> {
    Seq::new(
        n,
        |i: int|
            if chunks.contains_key(i as u16) {
                chunks[i as u16]
            } else {
                Seq::empty()
            },
    )
}

/// Of the chunks whose number leaves `stripe` modulo the number of stripes the
/// shard counts, `gap` alone is not on hand, and the shard is long enough for
/// what it says the gap holds.
pub open spec fn fills(waiting: Waiting, stripe: u16, gap: u16) -> bool {
    let shard = waiting.parity[stripe];
    let stripes = shard.parity_count as int;
    let length = if gap + 1 == waiting.meta.chunk_count {
        shard.last_chunk_payload_bytes
    } else {
        shard.chunk_payload_bytes
    };
    &&& waiting.parity.contains_key(stripe)
    &&& stripe < stripes
    &&& gap < waiting.meta.chunk_count
    &&& gap as int % stripes == stripe
    &&& !waiting.chunks.contains_key(gap)
    &&& forall|i: u16|
        i < waiting.meta.chunk_count && i as int % stripes == stripe && i != gap
            ==> #[trigger] waiting.chunks.contains_key(i)
    &&& 0 < length <= shard.payload.len()
}

proof fn lemma_fills_is_can_recover(waiting: Waiting, stripe: u16, gap: u16)
    ensures
        fills(waiting, stripe, gap) == waiting.can_recover(stripe, gap),
{
    let count = waiting.parity[stripe].parity_count;
    if waiting.can_recover(stripe, gap) {
        assert forall|i: u16|
            i < waiting.meta.chunk_count && i as int % count as int == stripe && i
                != gap implies #[trigger] waiting.chunks.contains_key(i) by {
            assert(frame::in_stripe(i, stripe, count, waiting.meta.chunk_count));
        }
    }
}

proof fn lemma_xor_of_what_is_on_hand(
    chunks: Map<u16, Seq<u8>>,
    parity_count: u16,
    stripe: u16,
    n: nat,
    offset: int,
)
    requires
        n < frame::indices(),
        0 <= offset,
    ensures
        frame::stripe_byte(chunks, stripe, parity_count, n, offset) == xor_at(
            on_hand(chunks, n),
            parity_count as int,
            stripe as int,
            offset,
        ),
    decreases n,
{
    if n > 0 {
        lemma_xor_of_what_is_on_hand(chunks, parity_count, stripe, (n - 1) as nat, offset);
        assert(on_hand(chunks, n).drop_last() =~= on_hand(chunks, (n - 1) as nat));
    }
}

/// Whoever made the shard, it fills a gap so that at every offset of what it
/// gave back it is the XOR of its stripe, and that is all it does.
pub proof fn law_a_gap_is_filled_to_match_the_shard(waiting: Waiting, stripe: u16, gap: u16)
    requires
        waiting.valid(),
        fills(waiting, stripe, gap),
    ensures
        ({
            let shard = waiting.parity[stripe];
            let after = waiting.repair_stripe(stripe);
            let given = after.chunks[gap];
            &&& after == Waiting {
                chunks: waiting.chunks.insert(gap, given),
                repaired: (waiting.repaired + 1) as u16,
                ..waiting
            }
            &&& given.len() == if gap + 1 == waiting.meta.chunk_count {
                shard.last_chunk_payload_bytes
            } else {
                shard.chunk_payload_bytes
            }
            &&& forall|offset: int|
                0 <= offset < given.len() ==> #[trigger] shard.payload[offset] == xor_at(
                    on_hand(after.chunks, waiting.meta.chunk_count as nat),
                    shard.parity_count as int,
                    stripe as int,
                    offset,
                )
        }),
{
    let shard = waiting.parity[stripe];
    let count = shard.parity_count;
    let chunk_count = waiting.meta.chunk_count;
    lemma_fills_is_can_recover(waiting, stripe, gap);
    let index = choose|index: u16| waiting.can_recover(stripe, index);
    frame::lemma_recoverable_is_unique(waiting, stripe, gap, index);
    let after = waiting.repair_stripe(stripe);
    let given = after.chunks[gap];
    assert forall|offset: int| 0 <= offset < given.len() implies #[trigger] shard.payload[offset]
        == xor_at(
        on_hand(after.chunks, chunk_count as nat),
        count as int,
        stripe as int,
        offset,
    ) by {
        erasure::lemma_stripe_splits(
            waiting.chunks,
            after.chunks,
            stripe,
            count,
            chunk_count,
            gap,
            chunk_count as nat,
            offset,
        );
        lemma_xor_of_what_is_on_hand(after.chunks, count, stripe, chunk_count as nat, offset);
        let held = frame::stripe_byte(waiting.chunks, stripe, count, chunk_count as nat, offset);
        let byte = shard.payload[offset];
        assert(held ^ (byte ^ held) == byte) by (bit_vector);
    }
}

/// A shard that fills no gap leaves the frame as it was: it is not on hand, or
/// its stripe is whole, or lacks more than one chunk, or it says of the gap that
/// it is empty or longer than the shard.
pub proof fn law_a_shard_that_fills_no_gap_changes_nothing(waiting: Waiting, stripe: u16)
    requires
        forall|gap: u16| !(#[trigger] fills(waiting, stripe, gap)),
    ensures
        waiting.repair_stripe(stripe) == waiting,
{
    assert forall|gap: u16| !(#[trigger] waiting.can_recover(stripe, gap)) by {
        lemma_fills_is_can_recover(waiting, stripe, gap);
    }
}

proof fn lemma_joined_is_flat(chunks: Map<u16, Seq<u8>>, n: nat)
    requires
        n <= frame::indices(),
    ensures
        frame::joined(chunks, n) == on_hand(chunks, n).flatten(),
    decreases n,
{
    let pieces = on_hand(chunks, n);
    if n > 0 {
        let fewer = on_hand(chunks, (n - 1) as nat);
        lemma_joined_is_flat(chunks, (n - 1) as nat);
        assert(pieces =~= fewer.push(pieces.last()));
        fewer.lemma_flatten_push(pieces.last());
        assert(fewer.flatten() + Seq::<u8>::empty() =~= fewer.flatten());
    }
}

/// A frame is all that is on hand of it, end to end in the order of the numbers.
pub proof fn law_a_frame_is_all_that_is_on_hand(waiting: Waiting, id: FrameId)
    ensures
        waiting.frame(id).bytes == on_hand(waiting.chunks, 0x1_0000).flatten(),
        waiting.frame(id).repaired_chunks == waiting.repaired,
{
    lemma_joined_is_flat(waiting.chunks, 0x1_0000);
}

/// Chunks that complete a frame without parity are handed on just as they came.
pub proof fn law_chunks_are_handed_on_as_they_came(
    state: AssemblerState,
    chunk: Chunk,
    now: Instant,
    whole: Frame,
)
    requires
        state.pending.contains_key(chunk.id),
        state.pending[chunk.id].parity == Map::<u16, Shard>::empty(),
        state.insert_chunk(chunk, Ok(()), now).1 == Ok::<Option<Frame>, reassembly::Refusal>(
            Some(whole),
        ),
    ensures
        whole.bytes == on_hand(
            state.pending[chunk.id].chunks.insert(chunk.index, chunk.payload),
            0x1_0000,
        ).flatten(),
{
    let waiting = state.pending[chunk.id];
    let grown = Waiting { chunks: waiting.chunks.insert(chunk.index, chunk.payload), ..waiting };
    assert forall|stripe: u16, index: u16| !grown.can_recover(stripe, index) by {
        assert(!grown.parity.contains_key(stripe));
    }
    erasure::lemma_nothing_to_recover(grown, frame::indices());
    lemma_joined_is_flat(grown.chunks, 0x1_0000);
}

/// A chunk is in the stripe that its number leaves modulo the number of stripes,
/// so neighbours in a stripe lie as many chunks apart as there are stripes.
pub proof fn law_a_stripe_holds_every_so_many_chunks(
    index: u16,
    stripe: u16,
    stripes: u16,
    chunk_count: u16,
)
    requires
        stripes > 0,
    ensures
        frame::in_stripe(index, stripe, stripes, chunk_count) <==> index < chunk_count
            && index as int % stripes as int == stripe,
        stripe < stripes && stripe < chunk_count ==> frame::in_stripe(
            stripe,
            stripe,
            stripes,
            chunk_count,
        ),
        frame::in_stripe(index, stripe, stripes, chunk_count) && index + stripes < chunk_count
            ==> frame::in_stripe((index + stripes) as u16, stripe, stripes, chunk_count),
{
    vstd::arithmetic::div_mod::lemma_mod_add_multiples_vanish(index as int, stripes as int);
    if stripe < stripes {
        vstd::arithmetic::div_mod::lemma_small_mod(stripe as nat, stripes as nat);
    }
}

} // verus!
