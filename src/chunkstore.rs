//! A chunk store: a chunk-store manifest together with the position of its data
//! file, and the checks that turn the compressed bytes of a chunk into its data.
use vstd::prelude::*;
use crate::csm::{Chunk, ChunkStoreManifest};

verus! {

/// What the first entry of a zip archive holds, or `None` where the bytes are
/// not a zip archive with a readable first entry.
pub uninterp spec fn unzipped(b: Seq<u8>) -> Option<Seq<u8>>;

/// The SHA-1 digest of a byte sequence.
pub uninterp spec fn sha1_of(b: Seq<u8>) -> Seq<u8>;

/// Relies on `zip::ZipArchive::new` and `by_index(0)`: the bytes of the first entry,
/// which depend on the archive's bytes alone.
#[verifier::external_body]
fn unzip_first(b: &Vec<u8>) -> (r: Option<Vec<u8>>)
    ensures
        match r {
            Some(v) => unzipped(b@) == Some(v@),
            None => unzipped(b@) is None,
        },
{
    let mut archive = zip::ZipArchive::new(std::io::Cursor::new(b.as_slice())).ok()?;
    let mut entry = archive.by_index(0).ok()?;
    let mut data: Vec<u8> = Vec::new();
    std::io::Read::read_to_end(&mut entry, &mut data).ok()?;
    Some(data)
}

/// Relies on `sha1::Sha1::digest`: the 20-byte SHA-1 digest of the bytes.
#[verifier::external_body]
fn sha1_digest(b: &Vec<u8>) -> (r: Vec<u8>)
    ensures
        r@ == sha1_of(b@),
        r@.len() == 20,
{
    <sha1::Sha1 as sha1::Digest>::digest(b.as_slice()).to_vec()
}

#[derive(Clone, Copy, Debug, PartialEq, Eq, Structural)]
pub enum ChunkError {
    /// The payload is LZMA-framed (`VZ`), which is not decoded.
    UnsupportedCompression,
    /// The payload starts with neither `PK` nor `VZ`.
    UnknownCompression,
    /// The payload is not a readable zip archive.
    BadArchive,
    /// The decompressed length differs from the manifest's.
    WrongLength,
    /// The SHA-1 of the decompressed bytes differs from the manifest's digest.
    WrongDigest,
}

#[derive(Clone, Copy, Debug, PartialEq, Eq, Structural)]
pub enum Compression {
    Zip,
    Lzma,
    Unknown,
}

/// How a compressed chunk is framed, by its first two bytes.
pub open spec fn compression_spec(b: Seq<u8>) -> Compression {
    if b.len() >= 2 && b[0] == 0x50 && b[1] == 0x4b {
        Compression::Zip
    } else if b.len() >= 2 && b[0] == 0x56 && b[1] == 0x5a {
        Compression::Lzma
    } else {
        Compression::Unknown
    }
}

pub fn compression_of(b: &Vec<u8>) -> (r: Compression)
    ensures
        r == compression_spec(b@),
{
    if b.len() >= 2 && b[0] == 0x50 && b[1] == 0x4b {
        Compression::Zip
    } else if b.len() >= 2 && b[0] == 0x56 && b[1] == 0x5a {
        Compression::Lzma
    } else {
        Compression::Unknown
    }
}

/// The outcome of checking decompressed bytes against a chunk's length and digest.
pub open spec fn checked_spec(data: Seq<u8>, uncompressed_length: u32, digest: Seq<u8>, sha: Seq<u8>) -> Result<
    Seq<u8>,
    ChunkError,
> {
    if data.len() != uncompressed_length {
        Err(ChunkError::WrongLength)
    } else if digest != sha {
        Err(ChunkError::WrongDigest)
    } else {
        Ok(data)
    }
}

/// Checks decompressed chunk bytes, given their SHA-1 digest, against the
/// uncompressed length and the digest that the manifest records.
pub fn check_chunk(data: Vec<u8>, uncompressed_length: u32, digest: &Vec<u8>, sha: &Vec<u8>) -> (r: Result<
    Vec<u8>,
    ChunkError,
>)
    ensures
        match r {
            Ok(v) => checked_spec(data@, uncompressed_length, digest@, sha@) == Ok::<Seq<u8>, ChunkError>(v@),
            Err(e) => checked_spec(data@, uncompressed_length, digest@, sha@) == Err::<Seq<u8>, ChunkError>(e),
        },
{
    if data.len() as u64 != uncompressed_length as u64 {
        return Err(ChunkError::WrongLength);
    }
    if !crate::le::bytes_equal(digest.as_slice(), sha.as_slice()) {
        return Err(ChunkError::WrongDigest);
    }
    Ok(data)
}

/// What decompressing and checking the compressed bytes of a chunk gives.
pub open spec fn decompressed_spec(compressed: Seq<u8>, uncompressed_length: u32, sha: Seq<u8>) -> Result<
    Seq<u8>,
    ChunkError,
> {
    match compression_spec(compressed) {
        Compression::Lzma => Err(ChunkError::UnsupportedCompression),
        Compression::Unknown => Err(ChunkError::UnknownCompression),
        Compression::Zip => match unzipped(compressed) {
            None => Err(ChunkError::BadArchive),
            Some(data) => checked_spec(data, uncompressed_length, sha1_of(data), sha),
        },
    }
}

/// Decompresses the bytes of a chunk and checks them against its length and digest.
pub fn decompress_and_verify(compressed: &Vec<u8>, uncompressed_length: u32, sha: &Vec<u8>) -> (r: Result<
    Vec<u8>,
    ChunkError,
>)
    ensures
        match r {
            Ok(v) => decompressed_spec(compressed@, uncompressed_length, sha@) == Ok::<Seq<u8>, ChunkError>(v@),
            Err(e) => decompressed_spec(compressed@, uncompressed_length, sha@) == Err::<Seq<u8>, ChunkError>(e),
        },
{
    match compression_of(compressed) {
        Compression::Lzma => Err(ChunkError::UnsupportedCompression),
        Compression::Unknown => Err(ChunkError::UnknownCompression),
        Compression::Zip => match unzip_first(compressed) {
            None => Err(ChunkError::BadArchive),
            Some(data) => {
                let digest = sha1_digest(&data);
                check_chunk(data, uncompressed_length, &digest, sha)
            },
        },
    }
}

/// A successful chunk read has the recorded length and digest.
pub proof fn lemma_chunk_data_checked(compressed: Seq<u8>, uncompressed_length: u32, sha: Seq<u8>)
    ensures
        decompressed_spec(compressed, uncompressed_length, sha) matches Ok(data) ==> data.len()
            == uncompressed_length && sha1_of(data) == sha,
{
}

#[derive(Clone, Copy, Debug, PartialEq, Eq, Structural)]
pub enum OpenError {
    /// The manifest is for another depot.
    DepotMismatch { found: u32 },
    /// The manifest marks the chunk store encrypted.
    Encrypted,
}

/// Where the next read of a chunk store's data file goes: seek first when `seek`
/// holds an offset, then read `length` bytes.
#[derive(Clone, Copy, Debug, PartialEq, Eq, Structural)]
pub struct ReadStep {
    pub seek: Option<u64>,
    pub length: u32,
}

pub struct ChunkStore {
    pub csm: ChunkStoreManifest,
    pub depot: u32,
    pub chunkstore_index: u32,
    pub csd_len: u64,
    /// The position of the data file, where it is known.
    pub position: Option<u64>,
}

impl ChunkStore {
    /// A chunk store for `depot` from its manifest and the size of its data file.
    pub fn open(depot: u32, chunkstore_index: u32, csm: ChunkStoreManifest, csd_len: u64) -> (r: Result<
        ChunkStore,
        OpenError,
    >)
        ensures
            csm.depot != depot ==> r == Err::<ChunkStore, OpenError>(OpenError::DepotMismatch { found: csm.depot }),
            csm.depot == depot && csm.is_encrypted ==> r == Err::<ChunkStore, OpenError>(OpenError::Encrypted),
            csm.depot == depot && !csm.is_encrypted ==> (r matches Ok(s) && s.csm == csm && s.depot == depot
                && s.chunkstore_index == chunkstore_index && s.csd_len == csd_len && s.position == Some(0u64)),
    {
        if csm.depot != depot {
            return Err(OpenError::DepotMismatch { found: csm.depot });
        }
        if csm.is_encrypted {
            return Err(OpenError::Encrypted);
        }
        Ok(ChunkStore { csm, depot, chunkstore_index, csd_len, position: Some(0) })
    }

    /// Plans the read of chunk `k`: a seek unless the file already stands at the
    /// chunk's offset. The position then stands after the chunk.
    pub fn begin_read(&mut self, k: usize) -> (r: ReadStep)
        requires
            k < old(self).csm.chunks@.len(),
        ensures
            ({
                let c = old(self).csm.chunks@[k as int].chunk;
                &&& r.length == c.compressed_length
                &&& r.seek == (if old(self).position == Some(c.offset) {
                    None
                } else {
                    Some(c.offset)
                })
                &&& final(self).position == (if c.offset + c.compressed_length <= u64::MAX {
                    Some((c.offset + c.compressed_length) as u64)
                } else {
                    None
                })
                &&& final(self).csm == old(self).csm
                &&& final(self).depot == old(self).depot
                &&& final(self).csd_len == old(self).csd_len
            }),
    {
        let c: Chunk = self.csm.chunks[k].chunk;
        let seek = match self.position {
            Some(p) => {
                if p == c.offset {
                    None
                } else {
                    Some(c.offset)
                }
            },
            None => Some(c.offset),
        };
        self.position = if c.offset <= u64::MAX - c.compressed_length as u64 {
            Some(c.offset + c.compressed_length as u64)
        } else {
            None
        };
        ReadStep { seek, length: c.compressed_length }
    }

    /// Forgets the position after a failed read.
    pub fn read_failed(&mut self)
        ensures
            final(self).position is None,
            final(self).csm == old(self).csm,
    {
        self.position = None;
    }

    /// Decompresses and checks the bytes read for chunk `k`.
    pub fn chunk_data(&self, k: usize, compressed: &Vec<u8>) -> (r: Result<Vec<u8>, ChunkError>)
        requires
            k < self.csm.chunks@.len(),
        ensures
            ({
                let e = self.csm.chunks@[k as int];
                match r {
                    Ok(v) => decompressed_spec(compressed@, e.chunk.uncompressed_length, e.sha@) == Ok::<
                        Seq<u8>,
                        ChunkError,
                    >(v@),
                    Err(err) => decompressed_spec(compressed@, e.chunk.uncompressed_length, e.sha@) == Err::<
                        Seq<u8>,
                        ChunkError,
                    >(err),
                }
            }),
    {
        let e = &self.csm.chunks[k];
        decompress_and_verify(compressed, e.chunk.uncompressed_length, &e.sha)
    }
}

} // verus!
