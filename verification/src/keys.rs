//! What a frame is called, what a chunk of it is called, and how frames are
//! ordered.

use crate::text;
use crate::text::{compare_text, Comparison};
use vstd::prelude::*;

verus! {

/// Names one frame of one session of one stream.
#[derive(Clone, Debug, PartialEq, Eq, PartialOrd, Ord)]
pub struct FrameKey {
    pub stream_id: String,
    pub session_id: String,
    pub frame_id: u64,
}

/// What a [`FrameKey`] says.
#[verifier::ext_equal]
pub struct FrameId {
    pub stream_id: Seq<char>,
    pub session_id: Seq<char>,
    pub frame_id: u64,
}

impl View for FrameKey {
    type V = FrameId;

    open spec fn view(&self) -> FrameId {
        FrameId {
            stream_id: self.stream_id@,
            session_id: self.session_id@,
            frame_id: self.frame_id,
        }
    }
}

/// Names one chunk of one frame, the way a receiver asks for it again. How the
/// name is spelled on the wire is the media contract's business.
#[derive(Clone, Copy, Debug, PartialEq, Eq, Structural)]
pub struct ChunkKey {
    pub frame_id: u64,
    pub chunk_index: u16,
}

/// The stream and session a frame belongs to.
#[verifier::ext_equal]
pub struct SessionId {
    pub stream_id: Seq<char>,
    pub session_id: Seq<char>,
}

impl SessionId {
    /// Streams in text order, and the sessions of one stream in text order.
    pub open spec fn before(self, other: SessionId) -> bool {
        ||| text::text_before(self.stream_id, other.stream_id)
        ||| self.stream_id == other.stream_id && text::text_before(self.session_id, other.session_id)
    }
}

impl FrameId {
    pub open spec fn session(self) -> SessionId {
        SessionId { stream_id: self.stream_id, session_id: self.session_id }
    }

    /// Sessions in their order, and the frames of one session by number.
    pub open spec fn before(self, other: FrameId) -> bool {
        ||| self.session().before(other.session())
        ||| self.session() == other.session() && self.frame_id < other.frame_id
    }
}

/// A session never comes before itself.
pub proof fn lemma_session_irreflexive(a: SessionId)
    ensures
        !a.before(a),
{
    text::lemma_text_irreflexive(a.stream_id);
    text::lemma_text_irreflexive(a.session_id);
}

/// The order on sessions chains.
pub proof fn lemma_session_transitive(a: SessionId, b: SessionId, c: SessionId)
    requires
        a.before(b),
        b.before(c),
    ensures
        a.before(c),
{
    if text::text_before(a.stream_id, b.stream_id) && text::text_before(b.stream_id, c.stream_id) {
        text::lemma_text_transitive(a.stream_id, b.stream_id, c.stream_id);
    }
    if text::text_before(a.session_id, b.session_id) && text::text_before(b.session_id, c.session_id) {
        text::lemma_text_transitive(a.session_id, b.session_id, c.session_id);
    }
}

/// A frame never comes before itself.
pub proof fn lemma_frame_irreflexive(a: FrameId)
    ensures
        !a.before(a),
{
    lemma_session_irreflexive(a.session());
}

/// The order on frames chains.
pub proof fn lemma_frame_transitive(a: FrameId, b: FrameId, c: FrameId)
    requires
        a.before(b),
        b.before(c),
    ensures
        a.before(c),
{
    if a.session().before(b.session()) && b.session().before(c.session()) {
        lemma_session_transitive(a.session(), b.session(), c.session());
    }
}

/// Of two different frames at most one comes first.
pub proof fn lemma_frame_asymmetric(a: FrameId, b: FrameId)
    requires
        a.before(b),
    ensures
        !b.before(a),
        a != b,
{
    lemma_frame_irreflexive(a);
    if b.before(a) {
        lemma_frame_transitive(a, b, a);
    }
}

/// Of two different frames one comes first.
pub proof fn lemma_frame_total(a: FrameId, b: FrameId)
    ensures
        a.before(b) || a == b || b.before(a),
{
    text::lemma_text_total(a.stream_id, b.stream_id);
    text::lemma_text_total(a.session_id, b.session_id);
}

/// Compares two sessions, each given by its stream and session id.
pub fn compare_sessions(
    a_stream: &str,
    a_session: &str,
    b_stream: &str,
    b_session: &str,
) -> (order: Comparison)
    ensures
        ({
            let a = SessionId { stream_id: a_stream@, session_id: a_session@ };
            let b = SessionId { stream_id: b_stream@, session_id: b_session@ };
            &&& order == Comparison::Before <==> a.before(b)
            &&& order == Comparison::Same <==> a == b
            &&& order == Comparison::After <==> b.before(a)
        }),
{
    proof {
        text::lemma_text_irreflexive(a_stream@);
    }
    match compare_text(a_stream, b_stream) {
        Comparison::Before => {
            proof {
                text::lemma_text_asymmetric(a_stream@, b_stream@);
            }
            Comparison::Before
        },
        Comparison::After => {
            proof {
                text::lemma_text_asymmetric(b_stream@, a_stream@);
            }
            Comparison::After
        },
        Comparison::Same => compare_text(a_session, b_session),
    }
}

impl FrameKey {
    /// Compares two frames: by stream, then by session, then by number.
    pub fn compare(&self, other: &FrameKey) -> (order: Comparison)
        ensures
            order == Comparison::Before <==> self@.before(other@),
            order == Comparison::Same <==> self@ == other@,
            order == Comparison::After <==> other@.before(self@),
    {
        let sessions = compare_sessions(
            self.stream_id.as_str(),
            self.session_id.as_str(),
            other.stream_id.as_str(),
            other.session_id.as_str(),
        );
        proof {
            lemma_session_irreflexive(self@.session());
            if self@.session().before(other@.session()) && other@.session().before(
                self@.session(),
            ) {
                lemma_session_transitive(self@.session(), other@.session(), self@.session());
            }
        }
        match sessions {
            Comparison::Same => {
                if self.frame_id < other.frame_id {
                    Comparison::Before
                } else if self.frame_id == other.frame_id {
                    Comparison::Same
                } else {
                    Comparison::After
                }
            },
            decided => decided,
        }
    }

    /// Another key that names the same frame.
    pub fn duplicate(&self) -> (key: FrameKey)
        ensures
            key@ == self@,
    {
        FrameKey {
            stream_id: self.stream_id.clone(),
            session_id: self.session_id.clone(),
            frame_id: self.frame_id,
        }
    }
}

/// A key says which stream, which session and which frame.
pub proof fn law_a_key_names_stream_session_and_frame(key: FrameKey)
    ensures
        key@.stream_id == key.stream_id@,
        key@.session_id == key.session_id@,
        key@.frame_id == key.frame_id,
        key@.session().stream_id == key.stream_id@,
        key@.session().session_id == key.session_id@,
{
}

/// Frames are ordered by stream, then by session, then by number.
pub proof fn law_frames_are_ordered_by_stream_session_number(a: FrameId, b: FrameId)
    ensures
        text::text_before(a.stream_id, b.stream_id) ==> a.before(b) && !b.before(a),
        a.stream_id == b.stream_id && text::text_before(a.session_id, b.session_id) ==> a.before(b)
            && !b.before(a),
        a.stream_id == b.stream_id && a.session_id == b.session_id ==> (a.before(b) <==> a.frame_id
            < b.frame_id),
        a.session().before(b.session()) ==> a.before(b) && !b.before(a),
        a.session() == b.session() <==> a.stream_id == b.stream_id && a.session_id == b.session_id,
{
    lemma_session_irreflexive(a.session());
    if a.before(b) {
        lemma_frame_asymmetric(a, b);
    }
}

} // verus!
