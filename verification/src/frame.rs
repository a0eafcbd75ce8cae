//! What a frame is, while it waits for chunks and once it is whole.

use crate::clock::Instant;
use crate::keys::{ChunkKey, FrameId};
use crate::records::{FrameMeta, Shard};
use vstd::prelude::*;

verus! {

/// A frame that is still waiting for chunks.
#[verifier::ext_equal]
pub struct Waiting {
    pub meta: FrameMeta,
    /// The chunks on hand, by index.
    pub chunks: Map<u16, Seq<u8>>,
    /// The parity on hand, by stripe.
    pub parity: Map<u16, Shard>,
    /// When its first record arrived.
    pub first_seen: Instant,
    /// How many of the chunks came out of parity.
    pub repaired: u16,
    /// How often its missing chunks were asked for.
    pub asks: u32,
    /// When they were asked for last, if ever.
    pub last_ask: Instant,
}

/// The stripe a chunk index falls into.
pub open spec fn stripe_of(index: int, parity_count: u16) -> int {
    index % parity_count as int
}

/// A chunk index is in a stripe when it leaves the stripe's number modulo the
/// number of stripes.
pub open spec fn in_stripe(index: u16, stripe: u16, parity_count: u16, chunk_count: u16) -> bool {
    index < chunk_count && stripe_of(index as int, parity_count) == stripe
}

/// The XOR, at one offset, of the chunks of a stripe that are on hand among
/// the first `n` chunks. A chunk too short to reach the offset counts as zero.
pub open spec fn stripe_byte(
    chunks: Map<u16, Seq<u8>>,
    stripe: u16,
    parity_count: u16,
    n: nat,
    offset: int,
) -> u8
    decreases n,
{
    if n == 0 {
        0
    } else {
        let index = (n - 1) as u16;
        let rest = stripe_byte(chunks, stripe, parity_count, (n - 1) as nat, offset);
        if stripe_of(n - 1, parity_count) == stripe && chunks.contains_key(index) && offset
            < chunks[index].len() {
            rest ^ chunks[index][offset]
        } else {
            rest
        }
    }
}

/// The first `n` chunks on hand, end to end in index order.
pub open spec fn joined(chunks: Map<u16, Seq<u8>>, n: nat) -> Seq<u8>
    decreases n,
{
    if n == 0 {
        Seq::empty()
    } else {
        let index = (n - 1) as u16;
        let rest = joined(chunks, (n - 1) as nat);
        if chunks.contains_key(index) {
            rest + chunks[index]
        } else {
            rest
        }
    }
}

/// The indices below `n` that are not on hand, in order.
pub open spec fn absent(chunks: Map<u16, Seq<u8>>, n: nat) -> Seq<u16>
    decreases n,
{
    if n == 0 {
        Seq::empty()
    } else {
        let index = (n - 1) as u16;
        let rest = absent(chunks, (n - 1) as nat);
        if chunks.contains_key(index) {
            rest
        } else {
            rest.push(index)
        }
    }
}

/// How many indices a chunk can have.
pub open spec fn indices() -> nat {
    65536
}

impl Waiting {
    /// The frame handed on once it is complete.
    pub open spec fn frame(self, id: FrameId) -> Frame {
        Frame {
            id,
            codec: self.meta.codec,
            pts_ticks: self.meta.pts_ticks,
            duration_ticks: self.meta.duration_ticks,
            timebase_num: self.meta.timebase_num,
            timebase_den: self.meta.timebase_den,
            keyframe: self.meta.keyframe,
            dependency_frame_id: self.meta.dependency_frame_id,
            bytes: self.bytes(),
            repaired_chunks: self.repaired,
        }
    }

    /// A frame of which nothing has arrived but its description.
    pub open spec fn opened(meta: FrameMeta, now: Instant) -> Waiting {
        Waiting {
            meta,
            chunks: Map::empty(),
            parity: Map::empty(),
            first_seen: now,
            repaired: 0,
            asks: 0,
            last_ask: now,
        }
    }

    /// As many chunks are on hand as the frame has.
    pub open spec fn complete(self) -> bool {
        self.chunks.len() == self.meta.chunk_count
    }

    /// The names of the chunks that are not on hand, in index order.
    pub open spec fn missing(self, frame_id: u64) -> Seq<ChunkKey> {
        absent(self.chunks, self.meta.chunk_count as nat).map_values(
            |index: u16| ChunkKey { frame_id, chunk_index: index },
        )
    }

    /// `index` is in the stripe and not on hand, and all the rest of the
    /// stripe is.
    pub open spec fn lacks_only(self, stripe: u16, index: u16) -> bool {
        let count = self.parity[stripe].parity_count;
        &&& in_stripe(index, stripe, count, self.meta.chunk_count)
        &&& !self.chunks.contains_key(index)
        &&& forall|other: u16| #[trigger]
            in_stripe(other, stripe, count, self.meta.chunk_count) && other != index
                ==> self.chunks.contains_key(other)
    }

    /// How long the shard says a chunk is.
    pub open spec fn length_of(self, stripe: u16, index: u16) -> u32 {
        if index == self.meta.chunk_count - 1 {
            self.parity[stripe].last_chunk_payload_bytes
        } else {
            self.parity[stripe].chunk_payload_bytes
        }
    }

    /// The stripe's shard can give back the chunk `index`.
    pub open spec fn can_recover(self, stripe: u16, index: u16) -> bool {
        &&& self.parity.contains_key(stripe)
        &&& stripe < self.parity[stripe].parity_count
        &&& self.lacks_only(stripe, index)
        &&& 0 < self.length_of(stripe, index) <= self.parity[stripe].payload.len()
    }

    /// What the shard gives back: its own bytes, with every chunk of the
    /// stripe that is on hand taken out of them.
    pub open spec fn recovered(self, stripe: u16, index: u16) -> Seq<u8> {
        let shard = self.parity[stripe];
        Seq::new(
            self.length_of(stripe, index) as nat,
            |offset: int|
                shard.payload[offset] ^ stripe_byte(
                    self.chunks,
                    stripe,
                    shard.parity_count,
                    self.meta.chunk_count as nat,
                    offset,
                ),
        )
    }

    /// The frame after one stripe has given back what it can.
    pub open spec fn repair_stripe(self, stripe: u16) -> Waiting {
        if exists|index: u16| self.can_recover(stripe, index) {
            let index = choose|index: u16| self.can_recover(stripe, index);
            Waiting {
                chunks: self.chunks.insert(index, self.recovered(stripe, index)),
                repaired: (self.repaired + 1) as u16,
                ..self
            }
        } else {
            self
        }
    }

    /// The frame after the stripes below `n` have given back what they can,
    /// one after another.
    pub open spec fn repair_below(self, n: nat) -> Waiting
        decreases n,
    {
        if n == 0 {
            self
        } else {
            self.repair_below((n - 1) as nat).repair_stripe((n - 1) as u16)
        }
    }

    /// The frame after every stripe has given back what it can.
    pub open spec fn repaired_by_parity(self) -> Waiting {
        self.repair_below(indices())
    }

    /// The access unit: the chunks end to end.
    pub open spec fn bytes(self) -> Seq<u8> {
        joined(self.chunks, indices())
    }

    /// The chunks on hand are finitely many, and no more of them came out of
    /// parity than belong to the frame.
    pub open spec fn valid(self) -> bool {
        &&& self.chunks.dom().finite()
        &&& self.repaired <= self.own_chunks().len()
    }

    /// The indices on hand that the frame says it has.
    pub open spec fn own_chunks(self) -> Set<u16> {
        self.chunks.dom().filter(|index: u16| index < self.meta.chunk_count)
    }
}

/// A complete access unit, ready for a decoder.
#[derive(Clone, Debug, PartialEq, Eq)]
pub struct VideoFrame {
    pub stream_id: String,
    pub session_id: String,
    pub frame_id: u64,
    pub codec: String,
    pub pts_ticks: i64,
    pub duration_ticks: u32,
    pub timebase_num: u32,
    pub timebase_den: u32,
    pub keyframe: bool,
    pub dependency_frame_id: Option<u64>,
    /// The access unit as the producer emitted it.
    pub bytes: Vec<u8>,
    /// Chunks that arrived as parity rather than as themselves.
    pub repaired_chunks: u16,
}

/// What a [`VideoFrame`] says.
#[verifier::ext_equal]
pub struct Frame {
    pub id: FrameId,
    pub codec: Seq<char>,
    pub pts_ticks: i64,
    pub duration_ticks: u32,
    pub timebase_num: u32,
    pub timebase_den: u32,
    pub keyframe: bool,
    pub dependency_frame_id: Option<u64>,
    pub bytes: Seq<u8>,
    pub repaired_chunks: u16,
}

impl View for VideoFrame {
    type V = Frame;

    open spec fn view(&self) -> Frame {
        Frame {
            id: FrameId {
                stream_id: self.stream_id@,
                session_id: self.session_id@,
                frame_id: self.frame_id,
            },
            codec: self.codec@,
            pts_ticks: self.pts_ticks,
            duration_ticks: self.duration_ticks,
            timebase_num: self.timebase_num,
            timebase_den: self.timebase_den,
            keyframe: self.keyframe,
            dependency_frame_id: self.dependency_frame_id,
            bytes: self.bytes@,
            repaired_chunks: self.repaired_chunks,
        }
    }
}

/// No index strictly between two neighbours of a stripe is in it.
pub proof fn lemma_stripe_steps(at: int, between: int, parity_count: int)
    requires
        0 < parity_count,
        0 <= at < between < at + parity_count,
    ensures
        between % parity_count != at % parity_count,
        (at + parity_count) % parity_count == at % parity_count,
{
    let quotient = at / parity_count;
    let rest = at % parity_count;
    vstd::arithmetic::div_mod::lemma_fundamental_div_mod(at, parity_count);
    vstd::arithmetic::div_mod::lemma_mod_add_multiples_vanish(at, parity_count);
    let step = between - at;
    if rest + step < parity_count {
        vstd::arithmetic::div_mod::lemma_fundamental_div_mod_converse(
            between,
            parity_count,
            quotient,
            rest + step,
        );
    } else {
        assert(between == (quotient + 1) * parity_count + (rest + step - parity_count))
            by (nonlinear_arith)
            requires
                at == parity_count * quotient + rest,
                between == at + step,
        ;
        vstd::arithmetic::div_mod::lemma_fundamental_div_mod_converse(
            between,
            parity_count,
            quotient + 1,
            rest + step - parity_count,
        );
    }
}

/// Chunks outside a stripe add nothing to its XOR.
pub proof fn lemma_stripe_byte_skips(
    chunks: Map<u16, Seq<u8>>,
    stripe: u16,
    parity_count: u16,
    from: nat,
    to: nat,
    offset: int,
)
    requires
        from <= to,
        forall|i: int| from <= i < to ==> #[trigger] stripe_of(i, parity_count) != stripe,
    ensures
        stripe_byte(chunks, stripe, parity_count, to, offset) == stripe_byte(
            chunks,
            stripe,
            parity_count,
            from,
            offset,
        ),
    decreases to,
{
    if from < to {
        lemma_stripe_byte_skips(chunks, stripe, parity_count, from, (to - 1) as nat, offset);
    }
}

/// A chunk on hand adds its byte to the stripe's XOR, if it reaches that far.
pub proof fn lemma_stripe_byte_takes(
    chunks: Map<u16, Seq<u8>>,
    stripe: u16,
    parity_count: u16,
    index: u16,
    offset: int,
)
    requires
        stripe_of(index as int, parity_count) == stripe,
    ensures
        stripe_byte(chunks, stripe, parity_count, (index + 1) as nat, offset) == {
            let rest = stripe_byte(chunks, stripe, parity_count, index as nat, offset);
            if chunks.contains_key(index) && offset < chunks[index].len() {
                rest ^ chunks[index][offset]
            } else {
                rest
            }
        },
{
}

/// A stripe can lack only one chunk in only one way.
pub proof fn lemma_recoverable_is_unique(waiting: Waiting, stripe: u16, one: u16, two: u16)
    requires
        waiting.can_recover(stripe, one),
        waiting.can_recover(stripe, two),
    ensures
        one == two,
{
    let count = waiting.parity[stripe].parity_count;
    assert(in_stripe(two, stripe, count, waiting.meta.chunk_count));
}

/// There are no more chunks of the frame on hand than the frame has.
pub proof fn lemma_own_chunks_bound(waiting: Waiting)
    requires
        waiting.chunks.dom().finite(),
    ensures
        waiting.own_chunks().finite(),
        waiting.own_chunks().len() <= waiting.meta.chunk_count,
{
    vstd::set_lib::lemma_int_range(0, waiting.meta.chunk_count as int);
    let numbers = waiting.own_chunks().map(|i: u16| i as int);
    assert(waiting.own_chunks().finite());
    vstd::set_lib::lemma_map_size(waiting.own_chunks(), numbers, |i: u16| i as int);
    vstd::set_lib::lemma_len_subset(numbers, vstd::set_lib::set_int_range(0, waiting.meta.chunk_count as int));
}

/// Repair leaves alone everything but the chunks and their count.
pub proof fn lemma_repair_keeps(waiting: Waiting, n: nat)
    ensures
        waiting.repair_below(n).meta == waiting.meta,
        waiting.repair_below(n).parity == waiting.parity,
        waiting.repair_below(n).first_seen == waiting.first_seen,
        waiting.repair_below(n).asks == waiting.asks,
        waiting.repair_below(n).last_ask == waiting.last_ask,
    decreases n,
{
    if n > 0 {
        lemma_repair_keeps(waiting, (n - 1) as nat);
    }
}

/// A stripe of which no shard is on hand gives nothing back.
pub proof fn lemma_repair_skips(waiting: Waiting, from: nat, to: nat)
    requires
        from <= to <= indices(),
        forall|stripe: u16| from <= stripe < to ==> !waiting.parity.contains_key(stripe),
    ensures
        waiting.repair_below(to) == waiting.repair_below(from),
    decreases to,
{
    if from < to {
        lemma_repair_skips(waiting, from, (to - 1) as nat);
        lemma_repair_keeps(waiting, (to - 1) as nat);
    }
}

/// One more chunk of the frame on hand makes one more of its own chunks.
pub proof fn lemma_own_chunks_grow(waiting: Waiting, index: u16, payload: Seq<u8>)
    requires
        waiting.chunks.dom().finite(),
        !waiting.chunks.contains_key(index),
    ensures
        ({
            let more = Waiting { chunks: waiting.chunks.insert(index, payload), ..waiting };
            &&& more.chunks.dom().finite()
            &&& more.own_chunks().len() == waiting.own_chunks().len() + (if index
                < waiting.meta.chunk_count {
                1int
            } else {
                0
            })
        }),
{
    let more = Waiting { chunks: waiting.chunks.insert(index, payload), ..waiting };
    if index < waiting.meta.chunk_count {
        assert(more.own_chunks() =~= waiting.own_chunks().insert(index));
    } else {
        assert(more.own_chunks() =~= waiting.own_chunks());
    }
}

/// Repair keeps a frame valid, and counts what it gives back.
pub proof fn lemma_repair_stripe_valid(waiting: Waiting, stripe: u16)
    requires
        waiting.valid(),
    ensures
        waiting.repair_stripe(stripe).valid(),
        waiting.repaired <= waiting.repair_stripe(stripe).repaired <= waiting.repaired + 1,
        waiting.repair_stripe(stripe).repaired == waiting.repaired ==> waiting.repair_stripe(stripe)
            == waiting,
        forall|index: u16| waiting.can_recover(stripe, index) ==> waiting.repaired
            < waiting.meta.chunk_count && waiting.repair_stripe(stripe).repaired == waiting.repaired
            + 1,
{
    if exists|index: u16| waiting.can_recover(stripe, index) {
        let index = choose|index: u16| waiting.can_recover(stripe, index);
        let payload = waiting.recovered(stripe, index);
        let more = Waiting { chunks: waiting.chunks.insert(index, payload), ..waiting };
        lemma_own_chunks_grow(waiting, index, payload);
        lemma_own_chunks_bound(more);
        assert(waiting.repair_stripe(stripe).own_chunks() == more.own_chunks());
    }
}

/// Repair by any number of stripes keeps a frame valid.
pub proof fn lemma_repair_valid(waiting: Waiting, n: nat)
    requires
        waiting.valid(),
    ensures
        waiting.repair_below(n).valid(),
        waiting.repaired <= waiting.repair_below(n).repaired,
        waiting.repair_below(n).repaired == waiting.repaired ==> waiting.repair_below(n) == waiting,
    decreases n,
{
    if n > 0 {
        lemma_repair_valid(waiting, (n - 1) as nat);
        lemma_repair_stripe_valid(waiting.repair_below((n - 1) as nat), (n - 1) as u16);
    }
}

/// A byte XORed into a running XOR joins what the run has taken in.
pub proof fn lemma_xor_joins(base: u8, run: u8, byte: u8)
    ensures
        (base ^ run) ^ byte == base ^ (run ^ byte),
        base ^ 0u8 == base,
{
    assert((base ^ run) ^ byte == base ^ (run ^ byte)) by (bit_vector);
    assert(base ^ 0u8 == base) by (bit_vector);
}

/// Indices that are not on hand add nothing to the access unit.
pub proof fn lemma_joined_skips(chunks: Map<u16, Seq<u8>>, from: nat, to: nat)
    requires
        from <= to <= indices(),
        forall|k: u16| from <= k < to ==> !chunks.contains_key(k),
    ensures
        joined(chunks, to) == joined(chunks, from),
    decreases to,
{
    if from < to {
        lemma_joined_skips(chunks, from, (to - 1) as nat);
    }
}

/// A frame handed on is read field by field.
pub proof fn law_a_frame_is_read_as_it_stands(frame: VideoFrame)
    ensures
        frame@.id.stream_id == frame.stream_id@,
        frame@.id.session_id == frame.session_id@,
        frame@.id.frame_id == frame.frame_id,
        frame@.codec == frame.codec@,
        frame@.pts_ticks == frame.pts_ticks,
        frame@.duration_ticks == frame.duration_ticks,
        frame@.timebase_num == frame.timebase_num,
        frame@.timebase_den == frame.timebase_den,
        frame@.keyframe == frame.keyframe,
        frame@.dependency_frame_id == frame.dependency_frame_id,
        frame@.bytes == frame.bytes@,
        frame@.repaired_chunks == frame.repaired_chunks,
{
}

} // verus!
