//! What the XOR stripe code promises, and that repair keeps it.

use crate::frame;
use crate::frame::Waiting;
use crate::records::Shard;
use vstd::prelude::*;

verus! {

/// The shard is what a producer builds for a stripe of a frame: the XOR of
/// the stripe's chunks, with their lengths told truly.
pub open spec fn covers(
    shard: Shard,
    frame: Map<u16, Seq<u8>>,
    stripe: u16,
    chunk_count: u16,
) -> bool {
    &&& stripe < shard.parity_count
    &&& forall|index: u16| #[trigger]
        frame::in_stripe(index, stripe, shard.parity_count, chunk_count) ==> {
            &&& frame.contains_key(index)
            &&& 0 < frame[index].len() <= shard.payload.len()
            &&& frame[index].len() == if index == chunk_count - 1 {
                shard.last_chunk_payload_bytes
            } else {
                shard.chunk_payload_bytes
            }
        }
    &&& forall|offset: int|
        0 <= offset < shard.payload.len() ==> #[trigger] shard.payload[offset]
            == frame::stripe_byte(
            frame,
            stripe,
            shard.parity_count,
            chunk_count as nat,
            offset,
        )
}

/// Every chunk on hand is the frame's own.
pub open spec fn part_of(chunks: Map<u16, Seq<u8>>, frame: Map<u16, Seq<u8>>) -> bool {
    forall|index: u16| #[trigger]
        chunks.contains_key(index) ==> frame.contains_key(index) && chunks[index] == frame[index]
}

/// The XOR of a whole stripe is the XOR of what is on hand of it and the one
/// chunk that is not.
pub proof fn lemma_stripe_splits(
    chunks: Map<u16, Seq<u8>>,
    frame: Map<u16, Seq<u8>>,
    stripe: u16,
    parity_count: u16,
    chunk_count: u16,
    lost: u16,
    n: nat,
    offset: int,
)
    requires
        part_of(chunks, frame),
        n <= chunk_count,
        frame.contains_key(lost),
        frame::in_stripe(lost, stripe, parity_count, chunk_count),
        !chunks.contains_key(lost),
        forall|other: u16| #[trigger]
            frame::in_stripe(other, stripe, parity_count, chunk_count) && other != lost
                ==> chunks.contains_key(other),
    ensures
        frame::stripe_byte(frame, stripe, parity_count, n, offset) == frame::stripe_byte(
            chunks,
            stripe,
            parity_count,
            n,
            offset,
        ) ^ (if lost < n && offset < frame[lost].len() {
            frame[lost][offset]
        } else {
            0u8
        }),
    decreases n,
{
    if n == 0 {
        assert(0u8 ^ 0u8 == 0u8) by (bit_vector);
    } else {
        let index = (n - 1) as u16;
        lemma_stripe_splits(
            chunks,
            frame,
            stripe,
            parity_count,
            chunk_count,
            lost,
            (n - 1) as nat,
            offset,
        );
        let held = frame::stripe_byte(chunks, stripe, parity_count, (n - 1) as nat, offset);
        if frame::stripe_of(n - 1, parity_count) == stripe {
            assert(frame::in_stripe(index, stripe, parity_count, chunk_count));
            if index == lost {
                if offset < frame[lost].len() {
                    let byte = frame[lost][offset];
                    assert((held ^ 0u8) ^ byte == held ^ byte) by (bit_vector);
                }
            } else if offset < frame[index].len() {
                let byte = frame[index][offset];
                let tail = if lost < n && offset < frame[lost].len() {
                    frame[lost][offset]
                } else {
                    0u8
                };
                assert((held ^ tail) ^ byte == (held ^ byte) ^ tail) by (bit_vector);
            }
        }
    }
}

/// A stripe gives back exactly one lost chunk: when its shard is on hand and
/// the rest of the stripe is, what repair puts in the gap is the chunk that
/// was lost, byte for byte.
pub proof fn law_parity_gives_back_the_lost_chunk(
    waiting: Waiting,
    frame: Map<u16, Seq<u8>>,
    stripe: u16,
    lost: u16,
)
    requires
        waiting.parity.contains_key(stripe),
        covers(waiting.parity[stripe], frame, stripe, waiting.meta.chunk_count),
        part_of(waiting.chunks, frame),
        waiting.lacks_only(stripe, lost),
    ensures
        waiting.can_recover(stripe, lost),
        waiting.recovered(stripe, lost) == frame[lost],
        waiting.repair_stripe(stripe).chunks == waiting.chunks.insert(lost, frame[lost]),
{
    let shard = waiting.parity[stripe];
    let count = waiting.meta.chunk_count;
    assert(frame::in_stripe(lost, stripe, shard.parity_count, count));
    assert(waiting.can_recover(stripe, lost));
    assert forall|offset: int| 0 <= offset < frame[lost].len() implies #[trigger] waiting.recovered(
        stripe,
        lost,
    )[offset] == frame[lost][offset] by {
        lemma_stripe_splits(
            waiting.chunks,
            frame,
            stripe,
            shard.parity_count,
            count,
            lost,
            count as nat,
            offset,
        );
        let held = frame::stripe_byte(
            waiting.chunks,
            stripe,
            shard.parity_count,
            count as nat,
            offset,
        );
        let byte = frame[lost][offset];
        assert((held ^ byte) ^ held == byte) by (bit_vector);
        assert(shard.payload[offset] == held ^ byte);
    }
    assert(waiting.recovered(stripe, lost) =~= frame[lost]);
    let chosen = choose|index: u16| waiting.can_recover(stripe, index);
    frame::lemma_recoverable_is_unique(waiting, stripe, lost, chosen);
}

/// Two chunks lost from one stripe are beyond repair: the stripe gives nothing
/// back.
pub proof fn law_two_losses_in_a_stripe_are_beyond_repair(
    waiting: Waiting,
    stripe: u16,
    one: u16,
    two: u16,
)
    requires
        one != two,
        !waiting.chunks.contains_key(one),
        !waiting.chunks.contains_key(two),
        frame::in_stripe(
            one,
            stripe,
            waiting.parity[stripe].parity_count,
            waiting.meta.chunk_count,
        ),
        frame::in_stripe(
            two,
            stripe,
            waiting.parity[stripe].parity_count,
            waiting.meta.chunk_count,
        ),
    ensures
        waiting.repair_stripe(stripe) == waiting,
{
    assert forall|index: u16| !waiting.can_recover(stripe, index) by {
    }
}

/// What repair of the stripes below `n` has done, when every shard on hand is
/// the producer's and no stripe lacks more than one chunk.
proof fn lemma_repair_progress(
    waiting: Waiting,
    frame: Map<u16, Seq<u8>>,
    parity_count: u16,
    n: nat,
)
    requires
        n <= frame::indices(),
        0 < parity_count,
        waiting.valid(),
        repairable(waiting, frame, parity_count),
    ensures
        part_of(waiting.repair_below(n).chunks, frame),
        forall|index: u16| #[trigger]
            waiting.repair_below(n).chunks.contains_key(index) <==> {
                ||| waiting.chunks.contains_key(index)
                ||| index < waiting.meta.chunk_count && frame::stripe_of(
                    index as int,
                    parity_count,
                ) < n
            },
    decreases n,
{
    if n > 0 {
        let stripe = (n - 1) as u16;
        let before = waiting.repair_below((n - 1) as nat);
        lemma_repair_progress(waiting, frame, parity_count, (n - 1) as nat);
        frame::lemma_repair_keeps(waiting, (n - 1) as nat);
        let count = waiting.meta.chunk_count;
        if exists|index: u16|
            frame::in_stripe(index, stripe, parity_count, count)
                && !waiting.chunks.contains_key(index) {
            let lost = choose|index: u16|
                frame::in_stripe(index, stripe, parity_count, count)
                    && !waiting.chunks.contains_key(index);
            assert(lacking(waiting, lost));
            assert(waiting.lacks_only(stripe, lost));
            assert(!before.chunks.contains_key(lost));
            assert forall|other: u16| #[trigger]
                frame::in_stripe(other, stripe, parity_count, count) && other
                    != lost implies before.chunks.contains_key(other) by {
                assert(waiting.chunks.contains_key(other));
            }
            assert(before.lacks_only(stripe, lost));
            law_parity_gives_back_the_lost_chunk(before, frame, stripe, lost);
            assert forall|index: u16|
                index < count && frame::stripe_of(index as int, parity_count)
                    == stripe implies #[trigger] before.repair_stripe(stripe).chunks.contains_key(
                index,
            ) by {
                assert(frame::in_stripe(index, stripe, parity_count, count));
            }
        } else {
            assert forall|index: u16| !before.can_recover(stripe, index) by {
                if before.can_recover(stripe, index) {
                    let own = before.parity[stripe].parity_count;
                    assert(own == parity_count);
                    assert(frame::in_stripe(index, stripe, parity_count, count));
                }
            }
            assert(before.repair_stripe(stripe) == before);
            assert forall|index: u16|
                index < count && frame::stripe_of(index as int, parity_count)
                    == stripe implies #[trigger] before.chunks.contains_key(index) by {
                assert(frame::in_stripe(index, stripe, parity_count, count));
            }
        }
    }
}

/// The chunk is one of the frame's and is not on hand.
pub open spec fn lacking(waiting: Waiting, index: u16) -> bool {
    index < waiting.meta.chunk_count && !waiting.chunks.contains_key(index)
}

/// Everything on hand is the frame's, every shard is the producer's with the
/// same number of stripes, and each chunk that is not on hand is the only one
/// its stripe lacks, with that stripe's shard on hand.
pub open spec fn repairable(
    waiting: Waiting,
    frame: Map<u16, Seq<u8>>,
    parity_count: u16,
) -> bool {
    &&& part_of(waiting.chunks, frame)
    &&& forall|index: u16| #[trigger] frame.contains_key(index) <==> index < waiting.meta.chunk_count
    &&& forall|stripe: u16| #[trigger]
        waiting.parity.contains_key(stripe) ==> waiting.parity[stripe].parity_count == parity_count
            && covers(waiting.parity[stripe], frame, stripe, waiting.meta.chunk_count)
    &&& forall|index: u16| #[trigger]
        lacking(waiting, index) ==> {
            let stripe = frame::stripe_of(index as int, parity_count) as u16;
            &&& waiting.parity.contains_key(stripe)
            &&& waiting.lacks_only(stripe, index)
        }
}

/// Parity completes a frame that lost at most one chunk in each stripe: after
/// one pass every chunk is on hand, each as the producer made it, and the
/// access unit is the producer's.
pub proof fn law_parity_completes_a_frame(
    waiting: Waiting,
    frame: Map<u16, Seq<u8>>,
    parity_count: u16,
)
    requires
        0 < parity_count,
        waiting.valid(),
        repairable(waiting, frame, parity_count),
    ensures
        waiting.repaired_by_parity().chunks == frame,
        waiting.repaired_by_parity().complete(),
        waiting.repaired_by_parity().bytes() == frame::joined(frame, frame::indices()),
{
    let whole = waiting.repaired_by_parity();
    lemma_repair_progress(waiting, frame, parity_count, frame::indices());
    frame::lemma_repair_keeps(waiting, frame::indices());
    frame::lemma_repair_valid(waiting, frame::indices());
    assert forall|index: u16| whole.chunks.contains_key(index) <==> frame.contains_key(index) by {
        if frame.contains_key(index) {
            vstd::arithmetic::div_mod::lemma_mod_bound(index as int, parity_count as int);
            assert(frame::stripe_of(index as int, parity_count) < frame::indices());
        }
    }
    assert(whole.chunks =~= frame);
    lemma_prefix_len(whole.chunks, whole.meta.chunk_count);
}

/// A map that holds exactly the indices below a bound has that many entries.
pub proof fn lemma_prefix_len(chunks: Map<u16, Seq<u8>>, bound: u16)
    requires
        forall|index: u16| #[trigger] chunks.contains_key(index) <==> index < bound,
    ensures
        chunks.dom().finite(),
        chunks.len() == bound,
    decreases bound,
{
    if bound == 0 {
        assert(chunks.dom() =~= Set::empty());
    } else {
        let last = (bound - 1) as u16;
        lemma_prefix_len(chunks.remove(last), last);
        assert(chunks.dom() =~= chunks.remove(last).dom().insert(last));
    }
}

/// Repair of stripes other than `stripe` does not touch it.
proof fn lemma_repair_leaves_other_stripes(
    waiting: Waiting,
    parity_count: u16,
    stripe: u16,
    from: nat,
    to: nat,
    index: u16,
)
    requires
        from <= to <= frame::indices(),
        !(from <= stripe < to),
        forall|other: u16| #[trigger]
            waiting.parity.contains_key(other) ==> waiting.parity[other].parity_count
                == parity_count,
        frame::stripe_of(index as int, parity_count) == stripe,
    ensures
        waiting.repair_below(to).chunks.contains_key(index) <==> waiting.repair_below(
            from,
        ).chunks.contains_key(index),
    decreases to,
{
    if from < to {
        lemma_repair_leaves_other_stripes(
            waiting,
            parity_count,
            stripe,
            from,
            (to - 1) as nat,
            index,
        );
        frame::lemma_repair_keeps(waiting, (to - 1) as nat);
        let before = waiting.repair_below((to - 1) as nat);
        let other = (to - 1) as u16;
        if exists|found: u16| before.can_recover(other, found) {
            let found = choose|found: u16| before.can_recover(other, found);
            assert(frame::in_stripe(found, other, parity_count, before.meta.chunk_count));
            assert(found != index);
        }
    }
}

/// Repair never needs a second pass, because stripes are independent: when the
/// shards on hand agree on how many stripes there are, a frame that was
/// repaired has nothing more to get back.
pub proof fn law_repair_never_needs_a_second_pass(waiting: Waiting, parity_count: u16)
    requires
        waiting.valid(),
        forall|stripe: u16| #[trigger]
            waiting.parity.contains_key(stripe) ==> waiting.parity[stripe].parity_count
                == parity_count,
    ensures
        waiting.repaired_by_parity().repaired_by_parity() == waiting.repaired_by_parity(),
{
    let after = waiting.repaired_by_parity();
    frame::lemma_repair_keeps(waiting, frame::indices());
    assert forall|stripe: u16, index: u16| !after.can_recover(stripe, index) by {
        if after.can_recover(stripe, index) {
            let before = waiting.repair_below(stripe as nat);
            let next = waiting.repair_below((stripe + 1) as nat);
            let count = waiting.meta.chunk_count;
            frame::lemma_repair_keeps(waiting, stripe as nat);
            frame::lemma_repair_keeps(waiting, (stripe + 1) as nat);
            assert(next == before.repair_stripe(stripe));
            assert forall|other: u16| #[trigger]
                frame::in_stripe(other, stripe, parity_count, count) implies (
            after.chunks.contains_key(other) <==> next.chunks.contains_key(other)) by {
                lemma_repair_leaves_other_stripes(
                    waiting,
                    parity_count,
                    stripe,
                    (stripe + 1) as nat,
                    frame::indices(),
                    other,
                );
            }
            assert(frame::in_stripe(index, stripe, parity_count, count));
            if exists|found: u16| before.can_recover(stripe, found) {
                let found = choose|found: u16| before.can_recover(stripe, found);
                assert(next.chunks.contains_key(index));
            } else {
                assert(next == before);
                assert(before.lacks_only(stripe, index));
                assert(before.can_recover(stripe, index));
            }
        }
    }
    lemma_nothing_to_recover(after, frame::indices());
}

/// Where no stripe can give anything back, repair changes nothing.
pub proof fn lemma_nothing_to_recover(waiting: Waiting, n: nat)
    requires
        forall|stripe: u16, index: u16| !waiting.can_recover(stripe, index),
    ensures
        waiting.repair_below(n) == waiting,
    decreases n,
{
    if n > 0 {
        lemma_nothing_to_recover(waiting, (n - 1) as nat);
    }
}

} // verus!
