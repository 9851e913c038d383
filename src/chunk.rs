//! Chunks that carry the hash state at their end.
use crate::Hasher;
use vstd::prelude::*;

verus! {

/// A chunk's bytes: copied into a buffer of its own, or borrowed from the
/// input.
pub enum ChunkData<'a> {
    Owned(Vec<u8>),
    Borrowed(&'a [u8]),
}

impl<'a> View for ChunkData<'a> {
    type V = Seq<u8>;

    open spec fn view(&self) -> Seq<u8> {
        match self {
            ChunkData::Owned(v) => v@,
            ChunkData::Borrowed(s) => s@,
        }
    }
}

/// A chunk with the hash state at its end. The state alone does not let a
/// window-based hash resume after the chunk: the last `WINDOW_SIZE` bytes
/// before the resume point are needed as well, taken from the tail of this
/// chunk and of those before it (`iter::window_before`), and both go to
/// `iter::Rolling::resume`.
pub struct ResumableChunk<'a, Hash: Hasher> {
    chunk: ChunkData<'a>,
    pub state: Hash::State,
}

impl<'a, Hash: Hasher> ResumableChunk<'a, Hash> {
    /// The chunk's bytes.
    pub closed spec fn spec_bytes(&self) -> Seq<u8> {
        self.chunk@
    }

    /// The chunk's bytes as held: owned or borrowed.
    pub closed spec fn spec_data(&self) -> ChunkData<'a> {
        self.chunk
    }

    /// The hash state at the chunk's end.
    pub closed spec fn spec_state(&self) -> Hash::State {
        self.state
    }

    pub fn new(data: ChunkData<'a>, state: Hash::State) -> (r: Self)
        ensures
            r.spec_bytes() == data@,
            r.spec_data() == data,
            r.spec_state() == state,
    {
        ResumableChunk { chunk: data, state }
    }

    /// The chunk's bytes.
    pub fn bytes(&self) -> (r: &[u8])
        ensures
            r@ == self.spec_bytes(),
    {
        match &self.chunk {
            ChunkData::Owned(v) => v.as_slice(),
            ChunkData::Borrowed(s) => s,
        }
    }
}

} // verus!
