//! One frame being put back together: the chunks that arrived, and the parity
//! that can stand in for one that did not.

use crate::clock::Instant;
use crate::frame;
use crate::frame::{VideoFrame, Waiting};
use crate::indexed::Indexed;
use crate::keys::{ChunkKey, FrameKey};
use crate::records::{
    FrameMeta, GameCultMediaVideoAccessUnitRecord, GameCultMediaVideoParityShardRecord, Shard,
};
use vstd::prelude::*;

verus! {

/// What every chunk and shard of one frame must agree on.
pub struct Meta {
    pub codec: String,
    pub pts_ticks: i64,
    pub duration_ticks: u32,
    pub timebase_num: u32,
    pub timebase_den: u32,
    pub keyframe: bool,
    pub dependency_frame_id: Option<u64>,
    pub deadline_ticks: i64,
    pub chunk_count: u16,
}

impl View for Meta {
    type V = FrameMeta;

    open spec fn view(&self) -> FrameMeta {
        FrameMeta {
            codec: self.codec@,
            pts_ticks: self.pts_ticks,
            duration_ticks: self.duration_ticks,
            timebase_num: self.timebase_num,
            timebase_den: self.timebase_den,
            keyframe: self.keyframe,
            dependency_frame_id: self.dependency_frame_id,
            deadline_ticks: self.deadline_ticks,
            chunk_count: self.chunk_count,
        }
    }
}

impl Meta {
    pub fn from_chunk(record: &GameCultMediaVideoAccessUnitRecord) -> (meta: Self)
        ensures
            meta@ == record@.meta,
    {
        Meta {
            codec: record.codec.clone(),
            pts_ticks: record.pts_ticks,
            duration_ticks: record.duration_ticks,
            timebase_num: record.timebase_num,
            timebase_den: record.timebase_den,
            keyframe: record.keyframe,
            dependency_frame_id: record.dependency_frame_id,
            deadline_ticks: record.deadline_ticks,
            chunk_count: record.chunk_count,
        }
    }

    pub fn from_parity(record: &GameCultMediaVideoParityShardRecord) -> (meta: Self)
        ensures
            meta@ == record@.meta,
    {
        Meta {
            codec: record.codec.clone(),
            pts_ticks: record.pts_ticks,
            duration_ticks: record.duration_ticks,
            timebase_num: record.timebase_num,
            timebase_den: record.timebase_den,
            keyframe: record.keyframe,
            dependency_frame_id: record.dependency_frame_id,
            deadline_ticks: record.deadline_ticks,
            chunk_count: record.chunk_count,
        }
    }

    /// Whether two descriptions say the same of a frame.
    pub fn agrees_with(&self, other: &Meta) -> (agree: bool)
        ensures
            agree == (self@ == other@),
    {
        let same_dependency = match (self.dependency_frame_id, other.dependency_frame_id) {
            (Some(one), Some(two)) => one == two,
            (None, None) => true,
            _ => false,
        };
        self.codec == other.codec && self.pts_ticks == other.pts_ticks && self.duration_ticks
            == other.duration_ticks && self.timebase_num == other.timebase_num && self.timebase_den
            == other.timebase_den && self.keyframe == other.keyframe && same_dependency
            && self.deadline_ticks == other.deadline_ticks && self.chunk_count == other.chunk_count
    }
}

/// A parity shard, apart from the frame and the stripe it is for.
pub struct ParityShard {
    pub payload: Vec<u8>,
    pub parity_count: u16,
    pub chunk_payload_bytes: u32,
    pub last_chunk_payload_bytes: u32,
}

impl View for ParityShard {
    type V = Shard;

    open spec fn view(&self) -> Shard {
        Shard {
            payload: self.payload@,
            parity_count: self.parity_count,
            chunk_payload_bytes: self.chunk_payload_bytes,
            last_chunk_payload_bytes: self.last_chunk_payload_bytes,
        }
    }
}

/// One frame being put back together.
pub struct Assembly {
    pub meta: Meta,
    pub chunks: Indexed<Vec<u8>>,
    pub parity: Indexed<ParityShard>,
    pub first_seen: Instant,
    pub repaired: u16,
    pub asks: u32,
    pub last_ask: Instant,
}

impl View for Assembly {
    type V = Waiting;

    open spec fn view(&self) -> Waiting {
        Waiting {
            meta: self.meta@,
            chunks: self.chunks@.map_values(|payload: Vec<u8>| payload@),
            parity: self.parity@.map_values(|shard: ParityShard| shard@),
            first_seen: self.first_seen,
            repaired: self.repaired,
            asks: self.asks,
            last_ask: self.last_ask,
        }
    }
}

impl Assembly {
    pub fn new(meta: Meta, now: Instant) -> (assembly: Self)
        ensures
            assembly@ == Waiting::opened(meta@, now),
            assembly@.valid(),
    {
        let assembly = Assembly {
            meta,
            chunks: Indexed::new(),
            parity: Indexed::new(),
            first_seen: now,
            repaired: 0,
            asks: 0,
            last_ask: now,
        };
        assert(assembly@.chunks =~= Map::empty());
        assert(assembly@.parity =~= Map::empty());
        assembly
    }

    pub fn is_complete(&self) -> (complete: bool)
        ensures
            complete == self@.complete(),
    {
        proof {
            self.lemma_counts();
        }
        self.chunks.len() == self.meta.chunk_count as usize
    }

    pub proof fn lemma_counts(&self)
        ensures
            self@.chunks.dom() == self.chunks@.dom(),
            self@.chunks.len() == self.chunks@.len(),
            self@.chunks.dom().finite(),
    {
        self.chunks.lemma_finite();
        assert(self@.chunks.dom() =~= self.chunks@.dom());
    }

    /// The indices of the chunks that are not on hand, in order.
    pub fn missing(&self) -> (missing: Vec<u16>)
        ensures
            missing@ == frame::absent(self@.chunks, self@.meta.chunk_count as nat),
    {
        let mut missing: Vec<u16> = Vec::new();
        let mut index: u16 = 0;
        while index < self.meta.chunk_count
            invariant
                index <= self.meta.chunk_count,
                missing@ == frame::absent(self@.chunks, index as nat),
            decreases self.meta.chunk_count - index,
        {
            assert(self@.chunks.contains_key(index) <==> self.chunks@.contains_key(index));
            if !self.chunks.contains(index) {
                missing.push(index);
            }
            index = index + 1;
        }
        missing
    }

    /// The names of the chunks that are not on hand, in index order.
    pub fn missing_chunk_keys(&self, frame_id: u64) -> (keys: Vec<ChunkKey>)
        ensures
            keys@ == self@.missing(frame_id),
    {
        let missing = self.missing();
        let mut keys: Vec<ChunkKey> = Vec::new();
        let mut i: usize = 0;
        while i < missing.len()
            invariant
                i <= missing@.len(),
                keys@.len() == i,
                forall|k: int|
                    0 <= k < i ==> keys@[k] == (ChunkKey { frame_id, chunk_index: missing@[k] }),
            decreases missing@.len() - i,
        {
            keys.push(ChunkKey { frame_id, chunk_index: missing[i] });
            i = i + 1;
        }
        assert(keys@ =~= self@.missing(frame_id));
        keys
    }

    /// The one chunk a stripe lacks, if it lacks exactly one.
    fn gap(&self, stripe: u16, parity_count: u16) -> (gap: Option<u16>)
        requires
            stripe < parity_count,
        ensures
            match gap {
                Some(index) => {
                    &&& frame::in_stripe(index, stripe, parity_count, self@.meta.chunk_count)
                    &&& !self@.chunks.contains_key(index)
                    &&& forall|other: u16| #[trigger]
                        frame::in_stripe(other, stripe, parity_count, self@.meta.chunk_count) && other
                            != index ==> self@.chunks.contains_key(other)
                },
                None => forall|index: u16|
                    !{
                        &&& #[trigger] frame::in_stripe(
                            index,
                            stripe,
                            parity_count,
                            self@.meta.chunk_count,
                        )
                        &&& !self@.chunks.contains_key(index)
                        &&& forall|other: u16| #[trigger]
                            frame::in_stripe(other, stripe, parity_count, self@.meta.chunk_count) && other
                                != index ==> self@.chunks.contains_key(other)
                    },
            },
    {
        let mut lost: Option<u16> = None;
        let mut at: u32 = stripe as u32;
        proof {
            vstd::arithmetic::div_mod::lemma_small_mod(stripe as nat, parity_count as nat);
            assert forall|i: u16| i < stripe implies #[trigger] frame::stripe_of(i as int, parity_count)
                != stripe by {
                vstd::arithmetic::div_mod::lemma_small_mod(i as nat, parity_count as nat);
            }
        }
        while at < self.meta.chunk_count as u32
            invariant
                stripe < parity_count,
                at < self.meta.chunk_count + parity_count || at == stripe,
                frame::stripe_of(at as int, parity_count) == stripe,
                match lost {
                    Some(index) => {
                        &&& index < at
                        &&& frame::in_stripe(index, stripe, parity_count, self@.meta.chunk_count)
                        &&& !self@.chunks.contains_key(index)
                    },
                    None => true,
                },
                forall|i: u16|
                    i < at && #[trigger] frame::in_stripe(i, stripe, parity_count, self@.meta.chunk_count)
                        && lost != Some(i) ==> self@.chunks.contains_key(i),
            decreases self.meta.chunk_count + parity_count - at,
        {
            let index = at as u16;
            assert(self@.chunks.contains_key(index) <==> self.chunks@.contains_key(index));
            assert(frame::in_stripe(index, stripe, parity_count, self@.meta.chunk_count));
            if !self.chunks.contains(index) {
                if let Some(first) = lost {
                    assert(frame::in_stripe(first, stripe, parity_count, self@.meta.chunk_count));
                    return None;
                }
                lost = Some(index);
            }
            proof {
                let count = parity_count as int;
                vstd::arithmetic::div_mod::lemma_mod_add_multiples_vanish(at as int, count);
                assert forall|i: u16| at < i < at + parity_count implies #[trigger] frame::stripe_of(
                    i as int,
                    parity_count,
                ) != stripe by {
                    frame::lemma_stripe_steps(at as int, i as int, count);
                }
            }
            at = at + parity_count as u32;
        }
        lost
    }

    /// What the stripe's shard can give back: the one chunk the stripe lacks,
    /// and its bytes.
    fn recover(&self, stripe: u16) -> (given: Option<(u16, Vec<u8>)>)
        ensures
            match given {
                Some((index, bytes)) => {
                    &&& self@.can_recover(stripe, index)
                    &&& bytes@ == self@.recovered(stripe, index)
                },
                None => forall|index: u16| !self@.can_recover(stripe, index),
            },
    {
        assert(self@.parity.contains_key(stripe) <==> self.parity@.contains_key(stripe));
        let shard = match self.parity.get(stripe) {
            Some(shard) => shard,
            None => {
                return None;
            },
        };
        assert(self@.parity[stripe] == shard@);
        if shard.parity_count == 0 || stripe >= shard.parity_count {
            return None;
        }
        let lost = match self.gap(stripe, shard.parity_count) {
            Some(lost) => lost,
            // Nothing to do, or more than XOR can give back.
            None => {
                return None;
            },
        };
        assert(self@.lacks_only(stripe, lost));
        let length = if lost == self.meta.chunk_count - 1 {
            shard.last_chunk_payload_bytes as usize
        } else {
            shard.chunk_payload_bytes as usize
        };
        if length == 0 || length > shard.payload.len() {
            proof {
                assert forall|index: u16| !self@.can_recover(stripe, index) by {
                    if self@.can_recover(stripe, index) {
                        assert(frame::in_stripe(
                            index,
                            stripe,
                            shard.parity_count,
                            self@.meta.chunk_count,
                        ));
                    }
                }
            }
            return None;
        }
        let bytes = self.without_present(stripe, shard, length);
        assert(bytes@ =~= self@.recovered(stripe, lost));
        Some((lost, bytes))
    }

    /// The first `length` bytes of a shard, with every chunk of its stripe
    /// that is on hand XORed out of them.
    fn without_present(&self, stripe: u16, shard: &ParityShard, length: usize) -> (bytes: Vec<u8>)
        requires
            stripe < shard.parity_count,
            length <= shard.payload@.len(),
        ensures
            bytes@.len() == length,
            forall|offset: int|
                0 <= offset < length ==> #[trigger] bytes@[offset] == shard.payload@[offset]
                    ^ frame::stripe_byte(
                    self@.chunks,
                    stripe,
                    shard.parity_count,
                    self@.meta.chunk_count as nat,
                    offset,
                ),
    {
        let ghost count = shard.parity_count;
        let ghost chunks = self@.chunks;
        let mut bytes: Vec<u8> = Vec::new();
        let mut filled: usize = 0;
        while filled < length
            invariant
                filled <= length <= shard.payload@.len(),
                bytes@ == shard.payload@.take(filled as int),
            decreases length - filled,
        {
            bytes.push(shard.payload[filled]);
            filled = filled + 1;
        }
        let mut at: u32 = stripe as u32;
        proof {
            vstd::arithmetic::div_mod::lemma_small_mod(stripe as nat, count as nat);
            assert forall|i: int| 0 <= i < stripe implies #[trigger] frame::stripe_of(i, count)
                != stripe by {
                vstd::arithmetic::div_mod::lemma_small_mod(i as nat, count as nat);
            }
            assert forall|offset: int| 0 <= offset < length implies #[trigger] bytes@[offset]
                == shard.payload@[offset] ^ frame::stripe_byte(
                chunks,
                stripe,
                count,
                stripe as nat,
                offset,
            ) by {
                frame::lemma_stripe_byte_skips(chunks, stripe, count, 0, stripe as nat, offset);
                frame::lemma_xor_joins(shard.payload@[offset], 0, 0);
            }
        }
        while at < self.meta.chunk_count as u32
            invariant
                count == shard.parity_count,
                chunks == self@.chunks,
                stripe < count,
                at < self.meta.chunk_count + count || at == stripe,
                frame::stripe_of(at as int, count) == stripe,
                bytes@.len() == length,
                length <= shard.payload@.len(),
                forall|offset: int|
                    0 <= offset < length ==> #[trigger] bytes@[offset] == shard.payload@[offset]
                        ^ frame::stripe_byte(chunks, stripe, count, at as nat, offset),
            decreases self.meta.chunk_count + count - at,
        {
            let index = at as u16;
            assert(chunks.contains_key(index) <==> self.chunks@.contains_key(index));
            let ghost before = bytes@;
            if let Some(present) = self.chunks.get(index) {
                assert(chunks[index] == present@);
                xor_into(&mut bytes, present);
            }
            proof {
                assert forall|offset: int| 0 <= offset < length implies #[trigger] bytes@[offset]
                    == shard.payload@[offset] ^ frame::stripe_byte(
                    chunks,
                    stripe,
                    count,
                    (at + count) as nat,
                    offset,
                ) by {
                    assert(before[offset] == shard.payload@[offset] ^ frame::stripe_byte(
                        chunks,
                        stripe,
                        count,
                        at as nat,
                        offset,
                    ));
                    frame::lemma_stripe_byte_takes(chunks, stripe, count, index, offset);
                    assert forall|i: int| at < i < at + count implies #[trigger] frame::stripe_of(i, count)
                        != stripe by {
                        frame::lemma_stripe_steps(at as int, i, count as int);
                    }
                    frame::lemma_stripe_byte_skips(
                        chunks,
                        stripe,
                        count,
                        (at + 1) as nat,
                        (at + count) as nat,
                        offset,
                    );
                    if chunks.contains_key(index) && offset < chunks[index].len() {
                        frame::lemma_xor_joins(
                            shard.payload@[offset],
                            frame::stripe_byte(chunks, stripe, count, at as nat, offset),
                            chunks[index][offset],
                        );
                    }
                }
                vstd::arithmetic::div_mod::lemma_mod_add_multiples_vanish(at as int, count as int);
            }
            at = at + shard.parity_count as u32;
        }
        proof {
            assert forall|offset: int| 0 <= offset < length implies #[trigger] bytes@[offset]
                == shard.payload@[offset] ^ frame::stripe_byte(
                chunks,
                stripe,
                count,
                self@.meta.chunk_count as nat,
                offset,
            ) by {
                assert(at >= self@.meta.chunk_count);
                if at < self@.meta.chunk_count + count {
                    assert forall|i: int| self@.meta.chunk_count <= i < at implies #[trigger]
                        frame::stripe_of(i, count) != stripe by {
                        if i > at - count && at >= count {
                            frame::lemma_stripe_steps(at - count, i, count as int);
                            vstd::arithmetic::div_mod::lemma_mod_sub_multiples_vanish(
                                at as int,
                                count as int,
                            );
                        } else {
                            vstd::arithmetic::div_mod::lemma_small_mod(i as nat, count as nat);
                            vstd::arithmetic::div_mod::lemma_small_mod(at as nat, count as nat);
                        }
                    }
                } else {
                    assert forall|i: int| self@.meta.chunk_count <= i < at implies #[trigger]
                        frame::stripe_of(i, count) != stripe by {
                        vstd::arithmetic::div_mod::lemma_small_mod(i as nat, count as nat);
                    }
                }
                frame::lemma_stripe_byte_skips(
                    chunks,
                    stripe,
                    count,
                    self@.meta.chunk_count as nat,
                    at as nat,
                    offset,
                );
            }
        }
        bytes
    }

    /// Recovers every chunk the parity on hand can give back, in one pass over
    /// the stripes. Says whether there was any.
    pub fn repair(&mut self) -> (recovered_any: bool)
        requires
            old(self)@.valid(),
        ensures
            final(self)@ == old(self)@.repaired_by_parity(),
            final(self)@.valid(),
            recovered_any == (final(self)@.repaired > old(self)@.repaired),
    {
        let ghost start = self@;
        let mut recovered_any = false;
        let stripes = self.parity.indices();
        let mut i: usize = 0;
        let ghost mut done: nat = 0;
        while i < stripes.len()
            invariant
                start == old(self)@,
                start.valid(),
                self@ == start.repair_below(done),
                done <= frame::indices(),
                i <= stripes@.len(),
                forall|a: int, b: int| 0 <= a < b < stripes@.len() ==> stripes@[a] < stripes@[b],
                forall|k: u16| stripes@.contains(k) <==> start.parity.contains_key(k),
                forall|a: int| i <= a < stripes@.len() ==> done <= #[trigger] stripes@[a],
                forall|a: int| 0 <= a < i ==> #[trigger] stripes@[a] < done,
                recovered_any == (self@.repaired > start.repaired),
            decreases stripes@.len() - i,
        {
            let stripe = stripes[i];
            let ghost before = self@;
            proof {
                assert forall|k: u16| done <= k < stripe implies !start.parity.contains_key(k) by {
                    if stripes@.contains(k) {
                        let a = choose|a: int| 0 <= a < stripes@.len() && stripes@[a] == k;
                        assert(a >= i);
                    }
                }
                frame::lemma_repair_skips(start, done, stripe as nat);
                frame::lemma_repair_valid(start, stripe as nat);
                frame::lemma_repair_stripe_valid(before, stripe);
            }
            if let Some((lost, bytes)) = self.recover(stripe) {
                proof {
                    let index = choose|index: u16| before.can_recover(stripe, index);
                    frame::lemma_recoverable_is_unique(before, stripe, lost, index);
                }
                let ghost given = bytes@;
                self.chunks.insert(lost, bytes);
                self.repaired = self.repaired + 1;
                recovered_any = true;
                assert(self@.chunks =~= before.chunks.insert(lost, given));
            }
            assert(self@ == before.repair_stripe(stripe));
            proof {
                done = (stripe + 1) as nat;
            }
            i = i + 1;
        }
        proof {
            assert forall|k: u16| done <= k < frame::indices() implies !start.parity.contains_key(k) by {
                if stripes@.contains(k) {
                    let a = choose|a: int| 0 <= a < stripes@.len() && stripes@[a] == k;
                    assert(stripes@[a] < done);
                }
            }
            frame::lemma_repair_skips(start, done, frame::indices());
            frame::lemma_repair_valid(start, frame::indices());
        }
        recovered_any
    }

    /// The finished frame: its description, and its chunks end to end.
    pub fn into_frame(self, key: &FrameKey) -> (frame: VideoFrame)
        ensures
            frame@ == self@.frame(key@),
    {
        let ghost chunks = self@.chunks;
        let order = self.chunks.indices();
        let mut bytes: Vec<u8> = Vec::new();
        let mut i: usize = 0;
        let ghost mut done: nat = 0;
        while i < order.len()
            invariant
                chunks == self@.chunks,
                bytes@ == frame::joined(chunks, done),
                done <= frame::indices(),
                i <= order@.len(),
                forall|a: int, b: int| 0 <= a < b < order@.len() ==> order@[a] < order@[b],
                forall|k: u16| order@.contains(k) <==> chunks.contains_key(k),
                forall|a: int| i <= a < order@.len() ==> done <= #[trigger] order@[a],
                forall|a: int| 0 <= a < i ==> #[trigger] order@[a] < done,
            decreases order@.len() - i,
        {
            let index = order[i];
            proof {
                assert(order@.contains(index));
                assert forall|k: u16| done <= k < index implies !chunks.contains_key(k) by {
                    if order@.contains(k) {
                        let a = choose|a: int| 0 <= a < order@.len() && order@[a] == k;
                        assert(a >= i);
                    }
                }
                frame::lemma_joined_skips(chunks, done, index as nat);
            }
            if let Some(chunk) = self.chunks.get(index) {
                assert(chunks[index] == chunk@);
                append_bytes(&mut bytes, chunk);
            }
            proof {
                done = (index + 1) as nat;
            }
            i = i + 1;
        }
        proof {
            assert forall|k: u16| done <= k < frame::indices() implies !chunks.contains_key(k) by {
                if order@.contains(k) {
                    let a = choose|a: int| 0 <= a < order@.len() && order@[a] == k;
                    assert(order@[a] < done);
                }
            }
            frame::lemma_joined_skips(chunks, done, frame::indices());
        }
        VideoFrame {
            stream_id: key.stream_id.clone(),
            session_id: key.session_id.clone(),
            frame_id: key.frame_id,
            codec: self.meta.codec,
            pts_ticks: self.meta.pts_ticks,
            duration_ticks: self.meta.duration_ticks,
            timebase_num: self.meta.timebase_num,
            timebase_den: self.meta.timebase_den,
            keyframe: self.meta.keyframe,
            dependency_frame_id: self.meta.dependency_frame_id,
            bytes,
            repaired_chunks: self.repaired,
        }
    }
}

/// XORs `other` into the start of `bytes`, as far as both reach.
fn xor_into(bytes: &mut Vec<u8>, other: &Vec<u8>)
    ensures
        final(bytes)@.len() == old(bytes)@.len(),
        forall|i: int|
            0 <= i < old(bytes)@.len() ==> #[trigger] final(bytes)@[i] == (if i < other@.len() {
                old(bytes)@[i] ^ other@[i]
            } else {
                old(bytes)@[i]
            }),
{
    let mut i: usize = 0;
    while i < bytes.len() && i < other.len()
        invariant
            bytes@.len() == old(bytes)@.len(),
            i <= bytes@.len(),
            i <= other@.len(),
            forall|k: int|
                0 <= k < bytes@.len() ==> #[trigger] bytes@[k] == (if k < i {
                    old(bytes)@[k] ^ other@[k]
                } else {
                    old(bytes)@[k]
                }),
        decreases bytes@.len() - i,
    {
        let mixed = bytes[i] ^ other[i];
        bytes.set(i, mixed);
        i = i + 1;
    }
}

/// Adds `more` at the end of `bytes`.
fn append_bytes(bytes: &mut Vec<u8>, more: &Vec<u8>)
    ensures
        final(bytes)@ == old(bytes)@ + more@,
{
    let mut i: usize = 0;
    while i < more.len()
        invariant
            i <= more@.len(),
            bytes@ == old(bytes)@ + more@.take(i as int),
        decreases more@.len() - i,
    {
        bytes.push(more[i]);
        i = i + 1;
    }
    assert(more@.take(i as int) =~= more@);
}

} // verus!
