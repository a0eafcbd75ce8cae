//! The frames that are still waiting, kept in frame order.

use crate::assembly::Assembly;
use crate::clock::Instant;
use crate::frame::Waiting;
use crate::keys;
use crate::keys::{FrameId, FrameKey};
use crate::reassembly;
use crate::text::Comparison;
use vstd::prelude::*;

verus! {

/// Frames come in their order, and none comes twice.
pub open spec fn in_order(listing: Seq<(FrameId, Waiting)>) -> bool {
    forall|i: int, j: int|
        0 <= i < j < listing.len() ==> #[trigger] listing[i].0.before(#[trigger] listing[j].0)
}

/// The frame is in the listing.
pub open spec fn listed(listing: Seq<(FrameId, Waiting)>, id: FrameId) -> bool {
    exists|i: int| 0 <= i < listing.len() && #[trigger] listing[i].0 == id
}

/// The listing as a map.
pub open spec fn map_of(listing: Seq<(FrameId, Waiting)>) -> Map<FrameId, Waiting> {
    Map::new(
        |id: FrameId| listed(listing, id),
        |id: FrameId|
            listing[choose|i: int| 0 <= i < listing.len() && #[trigger] listing[i].0 == id].1,
    )
}

/// In an ordered listing the map holds each entry.
pub proof fn lemma_entry(listing: Seq<(FrameId, Waiting)>, i: int)
    requires
        in_order(listing),
        0 <= i < listing.len(),
    ensures
        map_of(listing).contains_key(listing[i].0),
        map_of(listing)[listing[i].0] == listing[i].1,
{
    let id = listing[i].0;
    let j = choose|j: int| 0 <= j < listing.len() && #[trigger] listing[j].0 == id;
    keys::lemma_frame_irreflexive(id);
    if i < j {
        assert(listing[i].0.before(listing[j].0));
    } else if j < i {
        assert(listing[j].0.before(listing[i].0));
    }
}

/// Two frames of an ordered listing stand as their places do.
pub proof fn lemma_places(listing: Seq<(FrameId, Waiting)>, i: int, j: int)
    requires
        in_order(listing),
        0 <= i < listing.len(),
        0 <= j < listing.len(),
    ensures
        i < j <==> listing[i].0.before(listing[j].0),
        i == j <==> listing[i].0 == listing[j].0,
{
    keys::lemma_frame_irreflexive(listing[i].0);
    if i < j {
        keys::lemma_frame_asymmetric(listing[i].0, listing[j].0);
    } else if j < i {
        keys::lemma_frame_asymmetric(listing[j].0, listing[i].0);
    }
}

/// The map has as many entries as the listing.
pub proof fn lemma_map_len(listing: Seq<(FrameId, Waiting)>)
    requires
        in_order(listing),
    ensures
        map_of(listing).dom().finite(),
        map_of(listing).len() == listing.len(),
    decreases listing.len(),
{
    if listing.len() == 0 {
        assert(map_of(listing).dom() =~= Set::empty());
    } else {
        let last = listing.len() - 1;
        lemma_removed(listing, last);
        lemma_map_len(listing.remove(last));
        lemma_entry(listing, last);
        assert(map_of(listing).dom() =~= map_of(listing.remove(last)).dom().insert(
            listing[last].0,
        ));
    }
}

/// Taking an entry out of the listing takes it out of the map.
pub proof fn lemma_removed(listing: Seq<(FrameId, Waiting)>, i: int)
    requires
        in_order(listing),
        0 <= i < listing.len(),
    ensures
        in_order(listing.remove(i)),
        map_of(listing.remove(i)) == map_of(listing).remove(listing[i].0),
{
    let less = listing.remove(i);
    assert(in_order(less)) by {
        assert forall|a: int, b: int| 0 <= a < b < less.len() implies #[trigger] less[a].0.before(
            #[trigger] less[b].0,
        ) by {
            let a2 = if a < i { a } else { a + 1 };
            let b2 = if b < i { b } else { b + 1 };
            assert(listing[a2].0.before(listing[b2].0));
        }
    }
    assert forall|id: FrameId|
        map_of(less).contains_key(id) <==> map_of(listing).remove(listing[i].0).contains_key(
            id,
        ) by {
        if listed(less, id) {
            let a = choose|a: int| 0 <= a < less.len() && #[trigger] less[a].0 == id;
            let a2 = if a < i { a } else { a + 1 };
            assert(listing[a2].0 == id);
            lemma_places(listing, a2, i);
        }
        if listed(listing, id) && id != listing[i].0 {
            let a = choose|a: int| 0 <= a < listing.len() && #[trigger] listing[a].0 == id;
            let a2 = if a < i { a } else { a - 1 };
            assert(less[a2].0 == id);
        }
    }
    assert forall|id: FrameId| map_of(less).contains_key(id) implies map_of(less)[id] == map_of(
        listing,
    )[id] by {
        let a = choose|a: int| 0 <= a < less.len() && #[trigger] less[a].0 == id;
        lemma_entry(less, a);
        let a2 = if a < i { a } else { a + 1 };
        lemma_entry(listing, a2);
    }
    assert(map_of(less) =~= map_of(listing).remove(listing[i].0));
}

/// Putting an entry into its place in the listing puts it into the map.
pub proof fn lemma_inserted(
    listing: Seq<(FrameId, Waiting)>,
    i: int,
    id: FrameId,
    waiting: Waiting,
)
    requires
        in_order(listing),
        0 <= i <= listing.len(),
        forall|a: int| 0 <= a < i ==> (#[trigger] listing[a]).0.before(id),
        forall|a: int| i <= a < listing.len() ==> id.before((#[trigger] listing[a]).0),
    ensures
        in_order(listing.insert(i, (id, waiting))),
        map_of(listing.insert(i, (id, waiting))) == map_of(listing).insert(id, waiting),
        !map_of(listing).contains_key(id),
{
    let more = listing.insert(i, (id, waiting));
    assert(in_order(more)) by {
        assert forall|a: int, b: int| 0 <= a < b < more.len() implies #[trigger] more[a].0.before(
            #[trigger] more[b].0,
        ) by {
            if a != i && b != i {
                let a2 = if a < i { a } else { a - 1 };
                let b2 = if b < i { b } else { b - 1 };
                assert(listing[a2].0.before(listing[b2].0));
            } else if a == i {
                assert(id.before(listing[b - 1].0));
            } else {
                assert(listing[a].0.before(id));
            }
        }
    }
    assert(more[i] == (id, waiting));
    assert(more.remove(i) =~= listing);
    lemma_removed(more, i);
    lemma_entry(more, i);
    assert(map_of(more) =~= map_of(listing).insert(id, waiting));
}

/// Changing an entry in place changes it in the map.
pub proof fn lemma_updated(listing: Seq<(FrameId, Waiting)>, i: int, waiting: Waiting)
    requires
        in_order(listing),
        0 <= i < listing.len(),
    ensures
        in_order(listing.update(i, (listing[i].0, waiting))),
        map_of(listing.update(i, (listing[i].0, waiting))) == map_of(listing).insert(
            listing[i].0,
            waiting,
        ),
{
    let id = listing[i].0;
    let changed = listing.update(i, (id, waiting));
    assert(in_order(changed)) by {
        assert forall|a: int, b: int|
            0 <= a < b < changed.len() implies #[trigger] changed[a].0.before(
            #[trigger] changed[b].0,
        ) by {
            assert(listing[a].0.before(listing[b].0));
        }
    }
    assert(changed.remove(i) =~= listing.remove(i));
    lemma_removed(listing, i);
    lemma_removed(changed, i);
    lemma_entry(listing, i);
    lemma_entry(changed, i);
    assert(changed[i] == (id, waiting));
    assert forall|other: FrameId|
        map_of(changed).contains_key(other) <==> map_of(listing).insert(id, waiting).contains_key(
            other,
        ) by {
        if other != id {
            assert(map_of(changed).remove(id).contains_key(other) <==> map_of(listing).remove(
                id,
            ).contains_key(other));
        }
    }
    assert forall|other: FrameId| map_of(changed).contains_key(other) implies map_of(changed)[other]
        == map_of(listing).insert(id, waiting)[other] by {
        if other != id {
            assert(map_of(changed).remove(id)[other] == map_of(listing).remove(id)[other]);
        }
    }
    assert(map_of(changed) =~= map_of(listing).insert(id, waiting));
}

/// A waiting frame once what it lacks was asked for.
pub open spec fn asked_at(waiting: Waiting, now: Instant) -> Waiting {
    Waiting { asks: (waiting.asks + 1) as u32, last_ask: now, ..waiting }
}

/// A waiting frame under its key.
pub struct Entry {
    pub key: FrameKey,
    pub assembly: Assembly,
}

/// The waiting frames, in frame order.
pub struct Pending {
    entries: Vec<Entry>,
}

impl View for Pending {
    type V = Map<FrameId, Waiting>;

    open spec fn view(&self) -> Map<FrameId, Waiting> {
        map_of(self.listing())
    }
}

impl Pending {
    /// The frames with their keys, first frame first.
    pub closed spec fn listing(&self) -> Seq<(FrameId, Waiting)> {
        self.entries@.map_values(|entry: Entry| (entry.key@, entry.assembly@))
    }

    /// Frames are in order, and each is valid.
    pub open spec fn wf(&self) -> bool {
        &&& in_order(self.listing())
        &&& forall|i: int|
            0 <= i < self.listing().len() ==> (#[trigger] self.listing()[i]).1.valid()
    }

    pub fn new() -> (pending: Self)
        ensures
            pending.wf(),
            pending.listing().len() == 0,
            pending@ == Map::<FrameId, Waiting>::empty(),
    {
        let pending = Pending { entries: Vec::new() };
        assert(pending@ =~= Map::empty());
        pending
    }

    pub fn len(&self) -> (len: usize)
        requires
            self.wf(),
        ensures
            len == self.listing().len(),
            len == self@.len(),
            self@.dom().finite(),
    {
        proof {
            lemma_map_len(self.listing());
        }
        self.entries.len()
    }

    /// The place of a frame, or the place it would have.
    fn seek(&self, key: &FrameKey) -> (place: (usize, bool))
        requires
            self.wf(),
        ensures
            place.0 <= self.listing().len(),
            place.1 ==> place.0 < self.listing().len() && self.listing()[place.0 as int].0 == key@,
            forall|a: int| 0 <= a < place.0 ==> (#[trigger] self.listing()[a]).0.before(key@),
            !place.1 ==> forall|a: int|
                place.0 <= a < self.listing().len() ==> key@.before((#[trigger] self.listing()[a]).0),
    {
        let mut i: usize = 0;
        while i < self.entries.len()
            invariant
                self.wf(),
                i <= self.entries@.len(),
                self.entries@.len() == self.listing().len(),
                forall|a: int| 0 <= a < i ==> (#[trigger] self.listing()[a]).0.before(key@),
            decreases self.entries@.len() - i,
        {
            assert(self.listing()[i as int].0 == self.entries@[i as int].key@);
            match self.entries[i].key.compare(key) {
                Comparison::Before => {
                    i = i + 1;
                },
                Comparison::Same => {
                    return (i, true);
                },
                Comparison::After => {
                    proof {
                        assert forall|a: int| i <= a < self.listing().len() implies key@.before(
                            (#[trigger] self.listing()[a]).0,
                        ) by {
                            if a > i {
                                assert(self.listing()[i as int].0.before(self.listing()[a].0));
                                keys::lemma_frame_transitive(
                                    key@,
                                    self.listing()[i as int].0,
                                    self.listing()[a].0,
                                );
                            }
                        }
                    }
                    return (i, false);
                },
            }
        }
        (i, false)
    }

    /// Where a frame is, if it is waiting.
    pub fn find(&self, key: &FrameKey) -> (place: Option<usize>)
        requires
            self.wf(),
        ensures
            match place {
                Some(i) => {
                    &&& i < self.listing().len()
                    &&& self.listing()[i as int] == (key@, self@[key@])
                    &&& self@.contains_key(key@)
                },
                None => !self@.contains_key(key@),
            },
    {
        let (i, found) = self.seek(key);
        if found {
            proof {
                lemma_entry(self.listing(), i as int);
            }
            Some(i)
        } else {
            proof {
                if listed(self.listing(), key@) {
                    let a = choose|a: int|
                        0 <= a < self.listing().len() && #[trigger] self.listing()[a].0 == key@;
                    keys::lemma_frame_irreflexive(key@);
                }
            }
            None
        }
    }

    /// The frame at a place.
    pub fn at(&self, i: usize) -> (entry: &Entry)
        requires
            self.wf(),
            i < self.listing().len(),
        ensures
            (entry.key@, entry.assembly@) == self.listing()[i as int],
            self@.contains_key(entry.key@),
            self@[entry.key@] == entry.assembly@,
    {
        proof {
            lemma_entry(self.listing(), i as int);
        }
        &self.entries[i]
    }

    /// Adds a frame that is not waiting yet. Says where it went.
    pub fn insert(&mut self, key: FrameKey, assembly: Assembly) -> (place: usize)
        requires
            old(self).wf(),
            !old(self)@.contains_key(key@),
            assembly@.valid(),
        ensures
            final(self).wf(),
            final(self)@ == old(self)@.insert(key@, assembly@),
            place < final(self).listing().len(),
            final(self).listing()[place as int] == (key@, assembly@),
    {
        let (i, found) = self.seek(&key);
        proof {
            if found {
                lemma_entry(self.listing(), i as int);
            }
            lemma_inserted(self.listing(), i as int, key@, assembly@);
        }
        let ghost id = key@;
        let ghost waiting = assembly@;
        self.entries.insert(i, Entry { key, assembly });
        proof {
            assert(self.listing() =~= old(self).listing().insert(i as int, (id, waiting)));
            assert forall|a: int| 0 <= a < self.listing().len() implies (
            #[trigger] self.listing()[a]).1.valid() by {
                if a < i {
                    assert(old(self).listing()[a].1.valid());
                } else if a > i {
                    assert(old(self).listing()[a - 1].1.valid());
                }
            }
        }
        i
    }

    /// Takes the frame at a place out.
    pub fn remove(&mut self, i: usize) -> (entry: Entry)
        requires
            old(self).wf(),
            i < old(self).listing().len(),
        ensures
            final(self).wf(),
            (entry.key@, entry.assembly@) == old(self).listing()[i as int],
            old(self)@.contains_key(entry.key@),
            old(self)@[entry.key@] == entry.assembly@,
            entry.assembly@.valid(),
            final(self).listing() == old(self).listing().remove(i as int),
            final(self)@ == old(self)@.remove(entry.key@),
    {
        proof {
            lemma_entry(self.listing(), i as int);
            lemma_removed(self.listing(), i as int);
        }
        let entry = self.entries.remove(i);
        proof {
            assert(self.listing() =~= old(self).listing().remove(i as int));
            assert(old(self).listing()[i as int].1.valid());
            assert forall|a: int| 0 <= a < self.listing().len() implies (
            #[trigger] self.listing()[a]).1.valid() by {
                let a2 = if a < i { a } else { a + 1 };
                assert(old(self).listing()[a2].1.valid());
            }
        }
        entry
    }

    /// Notes that what the frame at a place lacks is being asked for.
    pub fn mark_asked(&mut self, i: usize, now: Instant)
        requires
            old(self).wf(),
            i < old(self).listing().len(),
            old(self).listing()[i as int].1.asks < u32::MAX,
        ensures
            final(self).wf(),
            final(self).listing() == old(self).listing().update(
                i as int,
                (
                    old(self).listing()[i as int].0,
                    asked_at(old(self).listing()[i as int].1, now),
                ),
            ),
    {
        let ghost waiting = asked_at(self.listing()[i as int].1, now);
        proof {
            assert(self.listing()[i as int].1.valid());
            assert(waiting.own_chunks() == self.listing()[i as int].1.own_chunks());
            lemma_updated(self.listing(), i as int, waiting);
        }
        let entry = &mut self.entries[i];
        entry.assembly.asks = entry.assembly.asks + 1;
        entry.assembly.last_ask = now;
        proof {
            assert(self.listing() =~= old(self).listing().update(
                i as int,
                (old(self).listing()[i as int].0, waiting),
            ));
            assert forall|a: int| 0 <= a < self.listing().len() implies (
            #[trigger] self.listing()[a]).1.valid() by {
                if a != i {
                    assert(old(self).listing()[a].1.valid());
                }
            }
        }
    }

    /// The place of the frame that has waited longest.
    pub fn stalest(&self) -> (place: usize)
        requires
            self.wf(),
            self.listing().len() > 0,
        ensures
            place < self.listing().len(),
            reassembly::is_stalest(self@, self.listing()[place as int].0),
    {
        let mut best: usize = 0;
        let mut i: usize = 1;
        while i < self.entries.len()
            invariant
                self.wf(),
                self.entries@.len() == self.listing().len(),
                best < i <= self.entries@.len(),
                forall|a: int|
                    0 <= a < best ==> self.listing()[best as int].1.first_seen.nanos < (
                    #[trigger] self.listing()[a]).1.first_seen.nanos,
                forall|a: int|
                    best < a < i ==> self.listing()[best as int].1.first_seen.nanos <= (
                    #[trigger] self.listing()[a]).1.first_seen.nanos,
            decreases self.entries@.len() - i,
        {
            assert(self.listing()[i as int].1 == self.entries@[i as int].assembly@);
            assert(self.listing()[best as int].1 == self.entries@[best as int].assembly@);
            if self.entries[i].assembly.first_seen.nanos
                < self.entries[best].assembly.first_seen.nanos {
                best = i;
            }
            i = i + 1;
        }
        proof {
            let listing = self.listing();
            let id = listing[best as int].0;
            lemma_entry(listing, best as int);
            assert forall|other: FrameId| #[trigger]
                self@.contains_key(other) && other != id implies {
                ||| self@[id].first_seen.nanos < self@[other].first_seen.nanos
                ||| self@[id].first_seen == self@[other].first_seen && id.before(other)
            } by {
                let a = choose|a: int| 0 <= a < listing.len() && #[trigger] listing[a].0 == other;
                lemma_entry(listing, a);
                if a > best {
                    assert(listing[best as int].0.before(listing[a].0));
                }
            }
        }
        best
    }
}

} // verus!
