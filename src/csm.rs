//! The chunk-store manifest: the index of the chunks that a chunk-store data
//! file holds, in the order in which they lie in it.
use vstd::prelude::*;
use crate::le::{le_u32_at, le_u64_at, read_u32_le, read_u64_le, copy_range, lemma_le_u32_bounds};

verus! {

/// Where one chunk lies in a chunk-store data file, and how large it is.
#[derive(Clone, Copy, Debug, PartialEq, Eq, Structural)]
pub struct Chunk {
    pub offset: u64,
    pub uncompressed_length: u32,
    pub compressed_length: u32,
}

/// One entry of a chunk-store manifest: a 20-byte SHA-1 digest and its chunk.
pub struct ChunkEntry {
    pub sha: Vec<u8>,
    pub chunk: Chunk,
}

pub struct ChunkStoreManifest {
    pub is_encrypted: bool,
    pub depot: u32,
    pub chunks: Vec<ChunkEntry>,
}

#[derive(Clone, Copy, Debug, PartialEq, Eq, Structural)]
pub enum CsmError {
    /// Bad magic, an unknown encryption tag, or fewer bytes than the count announces.
    Malformed,
}

/// The size of the header: magic, version, encryption tag, depot and count.
pub const CSM_HEADER_LEN: usize = 20;

/// The size of one chunk record.
pub const CSM_RECORD_LEN: usize = 36;

impl ChunkEntry {
    pub open spec fn view(&self) -> (Seq<u8>, Chunk) {
        (self.sha@, self.chunk)
    }
}

impl ChunkStoreManifest {
    pub open spec fn view(&self) -> (bool, u32, Seq<(Seq<u8>, Chunk)>) {
        (self.is_encrypted, self.depot, self.chunks@.map_values(|e: ChunkEntry| e@))
    }
}

/// The eight bytes that open every chunk-store manifest: `SCFS` and the version 0x14.
pub open spec fn csm_magic() -> Seq<u8> {
    seq![0x53u8, 0x43u8, 0x46u8, 0x53u8, 0x14u8, 0u8, 0u8, 0u8]
}

pub open spec fn csm_count(b: Seq<u8>) -> int {
    le_u32_at(b, 16)
}

/// The bytes open with the magic and a known encryption tag, and hold every record
/// that the count announces. Bytes after the last record are not read.
pub open spec fn csm_well_formed(b: Seq<u8>) -> bool {
    &&& b.len() >= CSM_HEADER_LEN
    &&& b.subrange(0, 8) == csm_magic()
    &&& (le_u32_at(b, 8) == 2 || le_u32_at(b, 8) == 3)
    &&& b.len() >= CSM_HEADER_LEN + CSM_RECORD_LEN * csm_count(b)
}

/// The record of the `k`-th chunk.
pub open spec fn csm_record(b: Seq<u8>, k: int) -> (Seq<u8>, Chunk) {
    let p = CSM_HEADER_LEN + CSM_RECORD_LEN * k;
    (
        b.subrange(p, p + 20),
        Chunk {
            offset: le_u64_at(b, p + 20) as u64,
            uncompressed_length: le_u32_at(b, p + 28) as u32,
            compressed_length: le_u32_at(b, p + 32) as u32,
        },
    )
}

/// What the bytes of a well-formed chunk-store manifest say.
pub open spec fn csm_spec(b: Seq<u8>) -> (bool, u32, Seq<(Seq<u8>, Chunk)>) {
    (
        le_u32_at(b, 8) == 3,
        le_u32_at(b, 12) as u32,
        Seq::new(csm_count(b) as nat, |k: int| csm_record(b, k)),
    )
}

fn read_magic(b: &[u8]) -> (r: bool)
    requires
        b@.len() >= 8,
    ensures
        r == (b@.subrange(0, 8) == csm_magic()),
{
    let ok = b[0] == 0x53 && b[1] == 0x43 && b[2] == 0x46 && b[3] == 0x53 && b[4] == 0x14
        && b[5] == 0 && b[6] == 0 && b[7] == 0;
    if !ok {
        assert(b@.subrange(0, 8) != csm_magic()) by {
            if b@.subrange(0, 8) == csm_magic() {
                assert(b@.subrange(0, 8)[0] == b@[0]);
                assert(b@.subrange(0, 8)[1] == b@[1]);
                assert(b@.subrange(0, 8)[2] == b@[2]);
                assert(b@.subrange(0, 8)[3] == b@[3]);
                assert(b@.subrange(0, 8)[4] == b@[4]);
                assert(b@.subrange(0, 8)[5] == b@[5]);
                assert(b@.subrange(0, 8)[6] == b@[6]);
                assert(b@.subrange(0, 8)[7] == b@[7]);
            }
        }
    } else {
        assert(b@.subrange(0, 8) =~= csm_magic());
    }
    ok
}

impl ChunkStoreManifest {
    /// Parses a chunk-store manifest.
    pub fn read(b: &[u8]) -> (r: Result<ChunkStoreManifest, CsmError>)
        ensures
            r is Ok <==> csm_well_formed(b@),
            r matches Ok(m) ==> m@ == csm_spec(b@),
    {
        let n = b.len();
        if n < CSM_HEADER_LEN {
            return Err(CsmError::Malformed);
        }
        if !read_magic(b) {
            return Err(CsmError::Malformed);
        }
        let tag = read_u32_le(b, 8);
        if tag != 2 && tag != 3 {
            return Err(CsmError::Malformed);
        }
        let depot = read_u32_le(b, 12);
        let count = read_u32_le(b, 16);
        if ((n - CSM_HEADER_LEN) / CSM_RECORD_LEN) < count as usize {
            return Err(CsmError::Malformed);
        }
        let mut chunks: Vec<ChunkEntry> = Vec::new();
        let mut k: usize = 0;
        while k < count as usize
            invariant
                csm_well_formed(b@),
                n == b@.len(),
                count == csm_count(b@),
                k <= count,
                chunks@.len() == k,
                forall|j: int| 0 <= j < k ==> #[trigger] chunks@[j]@ == csm_record(b@, j),
            decreases count - k,
        {
            assert(CSM_HEADER_LEN + CSM_RECORD_LEN * k + CSM_RECORD_LEN <= b@.len()) by (nonlinear_arith)
                requires
                    k < count,
                    b@.len() >= 0,
                    b@.len() >= CSM_HEADER_LEN + CSM_RECORD_LEN * count,
            ;
            let p = CSM_HEADER_LEN + CSM_RECORD_LEN * k;
            let sha = copy_range(b, p, p + 20);
            let offset = read_u64_le(b, p + 20);
            let uncompressed_length = read_u32_le(b, p + 28);
            let compressed_length = read_u32_le(b, p + 32);
            chunks.push(ChunkEntry { sha, chunk: Chunk { offset, uncompressed_length, compressed_length } });
            k = k + 1;
        }
        let m = ChunkStoreManifest { is_encrypted: tag == 3, depot, chunks };
        assert(m.chunks@.map_values(|e: ChunkEntry| e@) =~= csm_spec(b@).2);
        Ok(m)
    }
}

} // verus!
