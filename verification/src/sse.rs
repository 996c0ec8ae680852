use vstd::prelude::*;

verus! {

/// The request to listen to the events that a server sends.
#[derive(Debug, Clone, PartialEq, Eq)]
pub struct SseRequest {
    /// Where the server is.
    pub url: String,
}

/// What comes back for an `SseRequest`, piece by piece.
#[derive(Debug, PartialEq, Eq)]
pub enum SseResponse {
    /// Some bytes of the stream.
    Chunk(Vec<u8>),
    /// The stream has ended.
    Done,
}

impl SseResponse {
    /// Whether the stream has ended.
    pub fn is_done(&self) -> (done: bool)
        ensures
            done == (self is Done),
    {
        match self {
            SseResponse::Done => true,
            SseResponse::Chunk(_) => false,
        }
    }
}

} // verus!
