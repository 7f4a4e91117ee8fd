//! The closed set of logical audio streams.

use vstd::prelude::*;

verus! {

/// A logical stream a running application can be assigned to. The set is
/// closed and totally ordered (`Game` < `Voice` < `Music`), so that the
/// persisted document always lists streams in one canonical order.
#[derive(Clone, Copy, Debug, PartialEq, Eq, Hash, Structural)]
pub enum StreamId {
    Game,
    Voice,
    Music,
}

/// Position of a stream in the canonical order.
pub open spec fn spec_stream_index(s: StreamId) -> int {
    match s {
        StreamId::Game => 0,
        StreamId::Voice => 1,
        StreamId::Music => 2,
    }
}

/// The stream standing at a position of the canonical order.
pub open spec fn spec_stream_of_index(i: int) -> StreamId {
    if i == 0 {
        StreamId::Game
    } else if i == 1 {
        StreamId::Voice
    } else {
        StreamId::Music
    }
}

/// The canonical lower-case name of a stream, as it appears in the persisted
/// document.
pub open spec fn spec_stream_name(s: StreamId) -> Seq<char> {
    match s {
        StreamId::Game => seq!['g', 'a', 'm', 'e'],
        StreamId::Voice => seq!['v', 'o', 'i', 'c', 'e'],
        StreamId::Music => seq!['m', 'u', 's', 'i', 'c'],
    }
}

impl StreamId {
    /// Position of this stream in the canonical order.
    pub fn index(self) -> (r: usize)
        ensures
            r == spec_stream_index(self),
    {
        match self {
            StreamId::Game => 0,
            StreamId::Voice => 1,
            StreamId::Music => 2,
        }
    }

    /// The canonical lower-case name of this stream.
    pub fn name(self) -> (r: &'static str)
        ensures
            r@ == spec_stream_name(self),
    {
        proof {
            reveal_strlit("game");
            reveal_strlit("voice");
            reveal_strlit("music");
        }
        match self {
            StreamId::Game => "game",
            StreamId::Voice => "voice",
            StreamId::Music => "music",
        }
    }
}

/// Every stream, in canonical order.
pub fn all_streams() -> (r: Vec<StreamId>)
    ensures
        r@ == seq![StreamId::Game, StreamId::Voice, StreamId::Music],
{
    let mut v: Vec<StreamId> = Vec::new();
    v.push(StreamId::Game);
    v.push(StreamId::Voice);
    v.push(StreamId::Music);
    proof {
        assert(v@ =~= seq![StreamId::Game, StreamId::Voice, StreamId::Music]);
    }
    v
}

} // verus!
