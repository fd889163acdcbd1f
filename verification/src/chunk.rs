//! Bounds-checked navigation of self-describing binary chunks.
//!
//! Every binary artifact this crate decodes (compiled XML, compiled resource
//! table) is a sequence of nested token+size-prefixed regions. A
//! [`ChunkHeader`] describes one such region and centralizes all the offset
//! arithmetic, so a grammar decoder built on top of it cannot construct an
//! out-of-range read by hand.

use vstd::prelude::*;

verus! {

/// Failures raised while navigating chunked binary containers.
#[derive(Clone, Copy, PartialEq, Eq, Structural, Debug)]
pub enum ChunkError {
    /// Header fields inconsistent with declared sizes or buffer bounds;
    /// carries the buffer offset of the offending header.
    MalformedHeader { offset: u64 },
    /// A relative-to-absolute conversion would exceed the chunk's declared
    /// end; carries the payload-relative position that was requested.
    OutOfBoundsRead { offset: u64 },
}

/// One self-contained binary region: an absolute start position, the size of
/// the fixed-layout header at that position, the total size of the chunk
/// (header included), and a numeric token telling a higher-level decoder how
/// to interpret the payload.
#[derive(Clone, Copy, PartialEq, Eq, Structural, Debug)]
pub struct ChunkHeader {
    offset: u64,
    header_size: u16,
    chunk_size: u32,
    chunk_type: u16,
}

/// The low 16 bits read little-endian from two bytes.
pub open spec fn le16(b0: u8, b1: u8) -> u16 {
    (b0 as u16 + b1 as u16 * 0x100) as u16
}

/// The low 32 bits read little-endian from four bytes.
pub open spec fn le32(b0: u8, b1: u8, b2: u8, b3: u8) -> u32 {
    (b0 as u32 + b1 as u32 * 0x100 + b2 as u32 * 0x10000 + b3 as u32 * 0x1000000) as u32
}

impl ChunkHeader {
    /// Absolute start position of the chunk within its enclosing buffer.
    pub closed spec fn spec_offset(&self) -> u64 {
        self.offset
    }

    /// Size, in bytes, of the fixed-layout header portion.
    pub closed spec fn spec_header_size(&self) -> u16 {
        self.header_size
    }

    /// Total size of the chunk, header included.
    pub closed spec fn spec_chunk_size(&self) -> u32 {
        self.chunk_size
    }

    /// Numeric token identifying how the payload should be interpreted.
    pub closed spec fn spec_token(&self) -> u16 {
        self.chunk_type
    }

    /// A valid header: the fixed header fits inside the chunk, and the
    /// chunk's exclusive upper bound is representable.
    pub open spec fn wf(&self) -> bool {
        self.spec_header_size() <= self.spec_chunk_size()
            && self.spec_offset() + self.spec_chunk_size() <= u64::MAX
    }

    /// Start of the chunk's payload.
    pub open spec fn spec_data_offset(&self) -> int {
        self.spec_offset() + self.spec_header_size()
    }

    /// Exclusive upper bound of the chunk.
    pub open spec fn spec_chunk_end(&self) -> int {
        self.spec_offset() + self.spec_chunk_size()
    }

    pub fn new(offset: u64, header_size: u16, chunk_size: u32, chunk_type: u16) -> (r:
        ChunkHeader)
        requires
            header_size <= chunk_size,
            offset + chunk_size <= u64::MAX,
        ensures
            r.spec_offset() == offset,
            r.spec_header_size() == header_size,
            r.spec_chunk_size() == chunk_size,
            r.spec_token() == chunk_type,
            r.wf(),
    {
        ChunkHeader { offset, header_size, chunk_size, chunk_type }
    }

    /// Reads the fixed-layout header stored little-endian at `offset`: a
    /// 16-bit token, a 16-bit header size, then a 32-bit chunk size. Fails
    /// with `MalformedHeader` when the buffer has too few bytes for the
    /// header, when the declared header size exceeds the declared chunk
    /// size, or when the declared chunk overruns the buffer.
    pub fn read_header(buffer: &Vec<u8>, offset: usize) -> (r: Result<ChunkHeader, ChunkError>)
        ensures
            ({
                let ok = offset + 8 <= buffer@.len()
                    && le16(buffer@[offset + 2], buffer@[offset + 3]) <= le32(
                    buffer@[offset + 4],
                    buffer@[offset + 5],
                    buffer@[offset + 6],
                    buffer@[offset + 7],
                ) && offset + le32(
                    buffer@[offset + 4],
                    buffer@[offset + 5],
                    buffer@[offset + 6],
                    buffer@[offset + 7],
                ) <= buffer@.len();
                match r {
                    Ok(h) => ok && h.wf() && h.spec_offset() == offset && h.spec_token() == le16(
                        buffer@[offset as int],
                        buffer@[offset + 1],
                    ) && h.spec_header_size() == le16(buffer@[offset + 2], buffer@[offset + 3])
                        && h.spec_chunk_size() == le32(
                        buffer@[offset + 4],
                        buffer@[offset + 5],
                        buffer@[offset + 6],
                        buffer@[offset + 7],
                    ),
                    Err(e) => !ok && e == (ChunkError::MalformedHeader { offset: offset as u64 }),
                }
            }),
    {
        if buffer.len() < 8 || offset > buffer.len() - 8 {
            return Err(ChunkError::MalformedHeader { offset: offset as u64 });
        }
        let chunk_type: u16 = buffer[offset] as u16 + buffer[offset + 1] as u16 * 0x100;
        let header_size: u16 = buffer[offset + 2] as u16 + buffer[offset + 3] as u16 * 0x100;
        let chunk_size: u32 = buffer[offset + 4] as u32 + buffer[offset + 5] as u32 * 0x100
            + buffer[offset + 6] as u32 * 0x10000 + buffer[offset + 7] as u32 * 0x1000000;
        if header_size as u32 > chunk_size {
            return Err(ChunkError::MalformedHeader { offset: offset as u64 });
        }
        if chunk_size as usize > buffer.len() || offset > buffer.len() - chunk_size as usize {
            return Err(ChunkError::MalformedHeader { offset: offset as u64 });
        }
        Ok(ChunkHeader { offset: offset as u64, header_size, chunk_size, chunk_type })
    }

    pub fn get_offset(&self) -> (r: u64)
        ensures
            r == self.spec_offset(),
    {
        self.offset
    }

    pub fn get_header_size(&self) -> (r: u16)
        ensures
            r == self.spec_header_size(),
    {
        self.header_size
    }

    /// Start of the chunk's payload: `offset + header_size`.
    pub fn get_data_offset(&self) -> (r: u64)
        requires
            self.wf(),
        ensures
            r == self.spec_data_offset(),
    {
        self.offset + self.header_size as u64
    }

    /// Exclusive upper bound of the chunk: `offset + chunk_size`.
    pub fn get_chunk_end(&self) -> (r: u64)
        requires
            self.wf(),
        ensures
            r == self.spec_chunk_end(),
    {
        self.offset + self.chunk_size as u64
    }

    /// Offset at which a sibling chunk, if any, begins.
    pub fn next_chunk(&self) -> (r: u64)
        requires
            self.wf(),
        ensures
            r == self.spec_chunk_end(),
    {
        self.offset + self.chunk_size as u64
    }

    /// Converts a payload-relative position to an absolute buffer position.
    /// Addressing past the chunk's declared end is a data-corruption error
    /// and is excluded by the precondition; `try_absolute` is the total
    /// variant that reports it as a recoverable failure instead.
    pub fn absolute(&self, relative: u64) -> (r: u64)
        requires
            self.wf(),
            self.spec_offset() + relative <= self.spec_chunk_end(),
        ensures
            r == self.spec_offset() + relative,
    {
        self.offset + relative
    }

    /// Total form of `absolute`: succeeds exactly when the requested
    /// position lies at or before the chunk's declared end (the strict
    /// bound permits addressing the first byte past valid content for
    /// zero-length trailing reads), and fails with `OutOfBoundsRead`
    /// for every position beyond it — corrupted input is never clamped.
    pub fn try_absolute(&self, relative: u64) -> (r: Result<u64, ChunkError>)
        requires
            self.wf(),
        ensures
            self.spec_offset() + relative <= self.spec_chunk_end() ==> r == Ok::<u64, ChunkError>(
                (self.spec_offset() + relative) as u64,
            ),
            self.spec_offset() + relative > self.spec_chunk_end() ==> r == Err::<u64, ChunkError>(
                ChunkError::OutOfBoundsRead { offset: relative },
            ),
    {
        if relative > self.chunk_size as u64 {
            Err(ChunkError::OutOfBoundsRead { offset: relative })
        } else {
            Ok(self.offset + relative)
        }
    }

    pub fn get_token(&self) -> (r: u16)
        ensures
            r == self.spec_token(),
    {
        self.chunk_type
    }
}

/// Law: for every valid header the payload begins at or before the chunk's
/// end, and the distance between the two is exactly the declared payload
/// length `chunk_size - header_size`.
pub proof fn lemma_payload_within_chunk(h: ChunkHeader)
    requires
        h.wf(),
    ensures
        h.spec_data_offset() <= h.spec_chunk_end(),
        h.spec_chunk_end() - h.spec_data_offset() == h.spec_chunk_size() - h.spec_header_size(),
{
}

/// Law: for every valid header, every payload-relative position up to the
/// declared payload length `chunk_size - header_size` stays at or before the
/// chunk's end, so `absolute` accepts it and `try_absolute` returns `Ok`.
pub proof fn lemma_absolute_succeeds_in_payload(h: ChunkHeader, relative: u64)
    requires
        h.wf(),
        relative <= h.spec_chunk_size() - h.spec_header_size(),
    ensures
        h.spec_offset() + relative <= h.spec_chunk_end(),
{
}

} // verus!

