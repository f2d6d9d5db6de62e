use vstd::prelude::*;

verus! {

/// A span of the document whose characters are in memory.
pub struct LoadedChunk<'a> {
    pub offset: u64,
    pub data: &'a [char],
    pub is_modified: bool,
}

/// A span of the document known only by its offset and size.
pub struct UnloadedChunk {
    pub offset: u64,
    pub size: u64,
}

impl UnloadedChunk {
    /// Splits the chunk at an interior offset into two adjacent unloaded chunks.
    pub fn split(self, offset: u64) -> (r: (UnloadedChunk, UnloadedChunk))
        requires
            self.offset < offset < self.offset + self.size,
        ensures
            r.0.offset == self.offset,
            r.1.offset == offset,
            r.0.size + r.1.size == self.size,
            r.0.offset + r.0.size == r.1.offset,
    {
        let first = UnloadedChunk { offset: self.offset, size: offset - self.offset };
        let second = UnloadedChunk { offset: offset, size: self.size - first.size };
        (first, second)
    }
}

pub enum Chunk<'a> {
    Loaded(LoadedChunk<'a>),
    Unloaded(UnloadedChunk),
}

impl Chunk<'_> {
    pub open spec fn offset(&self) -> u64 {
        match self {
            Chunk::Loaded(c) => c.offset,
            Chunk::Unloaded(c) => c.offset,
        }
    }

    pub open spec fn size(&self) -> nat {
        match self {
            Chunk::Loaded(c) => c.data@.len(),
            Chunk::Unloaded(c) => c.size as nat,
        }
    }

    pub fn unloaded(offset: u64, size: u64) -> (r: Chunk<'static>)
        ensures
            r == (Chunk::Unloaded(UnloadedChunk { offset, size })),
    {
        Chunk::Unloaded(UnloadedChunk { offset, size })
    }

    pub fn loaded(offset: u64, data: &[char], is_modified: bool) -> (r: Chunk<'_>)
        ensures
            r == (Chunk::Loaded(LoadedChunk { offset, data, is_modified })),
    {
        Chunk::Loaded(LoadedChunk { offset, data, is_modified })
    }
}

} // verus!
