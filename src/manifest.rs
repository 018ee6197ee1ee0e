//! A depot manifest: the files of one depot and how each is cut into chunks.
use vstd::prelude::*;
use steam_vent_proto::content_manifest::{ContentManifestMetadata, ContentManifestPayload,
    ContentManifestSignature};
use steam_vent_proto::content_manifest::content_manifest_payload::FileMapping as ProtoMapping;
use steam_vent_proto::content_manifest::content_manifest_payload::file_mapping::ChunkData;
use steam_vent_proto::protobuf::Message;
use crate::envelope::{ManifestEnvelope, envelope_spec, envelope_bytes};

verus! {

/// The metadata record of a depot manifest.
#[derive(Clone, Copy, Debug, PartialEq, Eq, Structural)]
pub struct ManifestMetadata {
    pub depot_id: u32,
    pub gid_manifest: u64,
    pub creation_time: u32,
    pub filenames_encrypted: bool,
    pub cb_disk_original: u64,
    pub cb_disk_compressed: u64,
    pub unique_chunks: u32,
    pub crc_encrypted: u32,
    pub crc_clear: u32,
}

/// One chunk of a file: its SHA-1 digest, where it starts in the file, and its
/// uncompressed size.
pub struct ChunkRef {
    pub sha: Vec<u8>,
    pub offset: u64,
    pub cb_original: u32,
}

/// One file of a depot. Names are UTF-8 bytes.
pub struct FileMapping {
    pub filename: Vec<u8>,
    pub flags: u32,
    pub size: u64,
    pub linktarget: Option<Vec<u8>>,
    pub sha_filename: Vec<u8>,
    pub chunks: Vec<ChunkRef>,
}

/// The flag bit of a file mapping that marks a directory.
pub const FLAG_DIRECTORY: u32 = 0x40;

/// The flag bit of a file mapping that marks an executable.
pub const FLAG_EXECUTABLE: u32 = 0x100;

/// A chunk of a file as values: digest, offset in the file, uncompressed size.
pub type ChunkRefView = (Seq<u8>, u64, u32);

/// A file mapping as values: name, flags, size, link target, name digest, chunks.
pub type MappingView = (Seq<u8>, u32, u64, Option<Seq<u8>>, Seq<u8>, Seq<ChunkRefView>);

impl ChunkRef {
    pub open spec fn view(&self) -> ChunkRefView {
        (self.sha@, self.offset, self.cb_original)
    }
}

impl FileMapping {
    pub open spec fn view(&self) -> MappingView {
        (
            self.filename@,
            self.flags,
            self.size,
            match self.linktarget {
                Some(t) => Some(t@),
                None => None,
            },
            self.sha_filename@,
            self.chunks@.map_values(|c: ChunkRef| c@),
        )
    }
}

pub open spec fn mappings_view(v: Seq<FileMapping>) -> Seq<MappingView> {
    v.map_values(|m: FileMapping| m@)
}

/// The file mappings that an encoded payload record holds, or `None` where the
/// bytes are not a payload message.
pub uninterp spec fn decoded_payload(b: Seq<u8>) -> Option<Seq<MappingView>>;

/// The metadata that an encoded metadata record holds.
pub uninterp spec fn decoded_metadata(b: Seq<u8>) -> Option<ManifestMetadata>;

/// The signature bytes that an encoded signature record holds.
pub uninterp spec fn decoded_signature(b: Seq<u8>) -> Option<Seq<u8>>;

/// Relies on `protobuf::Message::parse_from_bytes` for `ContentManifestPayload`:
/// the decoded message depends on the bytes alone.
#[verifier::external_body]
fn decode_payload(b: &[u8]) -> (r: Option<Vec<FileMapping>>)
    ensures
        match r {
            Some(v) => decoded_payload(b@) == Some(mappings_view(v@)),
            None => decoded_payload(b@) is None,
        },
{
    let p = ContentManifestPayload::parse_from_bytes(b).ok()?;
    Some(p.mappings.iter().map(|m| FileMapping {
        filename: m.filename().as_bytes().to_vec(),
        flags: m.flags(),
        size: m.size(),
        linktarget: m.linktarget.as_ref().map(|t| t.as_bytes().to_vec()),
        sha_filename: m.sha_filename().to_vec(),
        chunks: m.chunks.iter().map(|c| ChunkRef { sha: c.sha().to_vec(), offset: c.offset(), cb_original: c.cb_original() }).collect(),
    }).collect())
}

/// Relies on `protobuf::Message::parse_from_bytes` for `ContentManifestMetadata`.
#[verifier::external_body]
fn decode_metadata(b: &[u8]) -> (r: Option<ManifestMetadata>)
    ensures
        r == decoded_metadata(b@),
{
    let m = ContentManifestMetadata::parse_from_bytes(b).ok()?;
    Some(ManifestMetadata {
        depot_id: m.depot_id(), gid_manifest: m.gid_manifest(), creation_time: m.creation_time(),
        filenames_encrypted: m.filenames_encrypted(), cb_disk_original: m.cb_disk_original(),
        cb_disk_compressed: m.cb_disk_compressed(), unique_chunks: m.unique_chunks(),
        crc_encrypted: m.crc_encrypted(), crc_clear: m.crc_clear(),
    })
}

/// Relies on `protobuf::Message::parse_from_bytes` for `ContentManifestSignature`.
#[verifier::external_body]
fn decode_signature(b: &[u8]) -> (r: Option<Vec<u8>>)
    ensures
        match r {
            Some(v) => decoded_signature(b@) == Some(v@),
            None => decoded_signature(b@) is None,
        },
{
    let s = ContentManifestSignature::parse_from_bytes(b).ok()?;
    Some(s.signature().to_vec())
}

#[derive(Clone, Copy, Debug, PartialEq, Eq, Structural)]
pub enum ManifestError {
    /// The envelope is malformed: an unknown tag, a missing record, or a cut.
    Malformed,
    /// A record is not the protobuf message it should be.
    BadRecord,
    /// The manifest belongs to another depot.
    DepotMismatch { found: u32 },
    /// The file names are encrypted and no key was given.
    EncryptedFilenames,
}

/// Metadata with every field zero.
pub fn empty_metadata() -> (r: ManifestMetadata)
    ensures
        r.depot_id == 0 && !r.filenames_encrypted,
{
    ManifestMetadata {
        depot_id: 0,
        gid_manifest: 0,
        creation_time: 0,
        filenames_encrypted: false,
        cb_disk_original: 0,
        cb_disk_compressed: 0,
        unique_chunks: 0,
        crc_encrypted: 0,
        crc_clear: 0,
    }
}

/// A decoded depot manifest.
pub struct Manifest {
    pub payload: Vec<FileMapping>,
    pub metadata: ManifestMetadata,
    pub signature: Vec<u8>,
}

/// What reading a depot manifest gives: the three records decoded.
pub open spec fn manifest_spec(b: Seq<u8>) -> Result<(Seq<MappingView>, ManifestMetadata, Seq<u8>), ManifestError> {
    match envelope_spec(b) {
        None => Err(ManifestError::Malformed),
        Some((p, m, s)) => match (decoded_payload(p), decoded_metadata(m), decoded_signature(s)) {
            (Some(p), Some(m), Some(s)) => Ok((p, m, s)),
            _ => Err(ManifestError::BadRecord),
        },
    }
}

impl Manifest {
    pub open spec fn view(&self) -> (Seq<MappingView>, ManifestMetadata, Seq<u8>) {
        (mappings_view(self.payload@), self.metadata, self.signature@)
    }

    /// Reads a depot manifest: the envelope, then each record's message.
    pub fn read(b: &[u8]) -> (r: Result<Manifest, ManifestError>)
        ensures
            match r {
                Ok(m) => manifest_spec(b@) == Ok::<_, ManifestError>(m@),
                Err(e) => manifest_spec(b@) == Err::<(Seq<MappingView>, ManifestMetadata, Seq<u8>), _>(e),
            },
    {
        let env = match ManifestEnvelope::read(b) {
            Ok(e) => e,
            Err(_) => {
                return Err(ManifestError::Malformed);
            },
        };
        let payload = decode_payload(env.payload.as_slice());
        let metadata = decode_metadata(env.metadata.as_slice());
        let signature = decode_signature(env.signature.as_slice());
        match (payload, metadata, signature) {
            (Some(payload), Some(metadata), Some(signature)) => Ok(Manifest { payload, metadata, signature }),
            _ => Err(ManifestError::BadRecord),
        }
    }

    /// Checks that the manifest belongs to `depot`, as the verifier needs; tells
    /// whether its file names are encrypted, which the verifier only reports.
    pub fn check_for_verify(&self, depot: u32) -> (r: Result<bool, ManifestError>)
        ensures
            self.metadata.depot_id != depot ==> r == Err::<bool, ManifestError>(
                ManifestError::DepotMismatch { found: self.metadata.depot_id },
            ),
            self.metadata.depot_id == depot ==> r == Ok::<bool, ManifestError>(self.metadata.filenames_encrypted),
    {
        if self.metadata.depot_id != depot {
            return Err(ManifestError::DepotMismatch { found: self.metadata.depot_id });
        }
        Ok(self.metadata.filenames_encrypted)
    }

    /// Checks that the manifest belongs to `depot` and that its file names are
    /// in the clear, as a mount needs.
    pub fn check_for_mount(&self, depot: u32) -> (r: Result<(), ManifestError>)
        ensures
            self.metadata.depot_id != depot ==> r == Err::<(), ManifestError>(
                ManifestError::DepotMismatch { found: self.metadata.depot_id },
            ),
            self.metadata.depot_id == depot && self.metadata.filenames_encrypted ==> r == Err::<(), ManifestError>(
                ManifestError::EncryptedFilenames,
            ),
            self.metadata.depot_id == depot && !self.metadata.filenames_encrypted ==> r is Ok,
    {
        if self.metadata.depot_id != depot {
            return Err(ManifestError::DepotMismatch { found: self.metadata.depot_id });
        }
        if self.metadata.filenames_encrypted {
            return Err(ManifestError::EncryptedFilenames);
        }
        Ok(())
    }
}

/// What standard base64 decoding of `s` gives, or `None` where `s` is not base64.
pub uninterp spec fn base64_decoded(s: Seq<u8>) -> Option<Seq<u8>>;

/// What AES-256-CBC decryption with the IV in the first 16 bytes gives, without
/// checking an HMAC; `None` where the padding is bad.
pub uninterp spec fn decrypted(ciphertext: Seq<u8>, key: Seq<u8>) -> Option<Seq<u8>>;

/// Relies on `base64::Engine::decode` with the standard alphabet.
#[verifier::external_body]
fn decode_base64(s: &[u8]) -> (r: Option<Vec<u8>>)
    ensures
        match r {
            Some(v) => base64_decoded(s@) == Some(v@),
            None => base64_decoded(s@) is None,
        },
{
    base64::Engine::decode(&base64::engine::general_purpose::STANDARD, s).ok()
}

/// Relies on `steam_vent_crypto::symmetric_decrypt_without_hmac`, which panics on
/// fewer than 16 bytes.
#[verifier::external_body]
fn symmetric_decrypt(ciphertext: &[u8], key: &[u8; 32]) -> (r: Option<Vec<u8>>)
    requires
        ciphertext@.len() >= 16,
    ensures
        match r {
            Some(v) => decrypted(ciphertext@, key@) == Some(v@),
            None => decrypted(ciphertext@, key@) is None,
        },
{
    steam_vent_crypto::symmetric_decrypt_without_hmac(ciphertext.into(), key).ok().map(|m| m.to_vec())
}

/// Relies on `std::str::from_utf8`: it accepts exactly the valid UTF-8 sequences.
#[verifier::external_body]
fn is_utf8(b: &[u8]) -> (r: bool)
    ensures
        r == vstd::utf8::valid_utf8(b@),
{
    std::str::from_utf8(b).is_ok()
}

#[derive(Clone, Copy, Debug, PartialEq, Eq, Structural)]
pub enum DecryptError {
    /// A name is not base64.
    Base64,
    /// A name does not decrypt.
    Cipher,
    /// A decrypted name is not UTF-8.
    Utf8,
}

/// `s` without its line endings (`\n`, and `\r` before `\n`).
pub open spec fn strip_newlines(s: Seq<u8>) -> Seq<u8>
    decreases s.len(),
{
    if s.len() == 0 {
        s
    } else if s[0] == 0x0a {
        strip_newlines(s.subrange(1, s.len() as int))
    } else if s[0] == 0x0d && s.len() > 1 && s[1] == 0x0a {
        strip_newlines(s.subrange(2, s.len() as int))
    } else {
        seq![s[0]] + strip_newlines(s.subrange(1, s.len() as int))
    }
}

/// Joins the lines of `s`.
pub fn join_lines(s: &[u8]) -> (r: Vec<u8>)
    ensures
        r@ == strip_newlines(s@),
{
    let mut out: Vec<u8> = Vec::new();
    let mut i: usize = 0;
    assert(s@.subrange(0, s@.len() as int) =~= s@);
    while i < s.len()
        invariant
            i <= s@.len(),
            strip_newlines(s@) == out@ + strip_newlines(s@.subrange(i as int, s@.len() as int)),
        decreases s@.len() - i,
    {
        let ghost rest = s@.subrange(i as int, s@.len() as int);
        if s[i] == 0x0a {
            assert(rest.subrange(1, rest.len() as int) =~= s@.subrange(i + 1, s@.len() as int));
            i = i + 1;
        } else if s[i] == 0x0d && i + 1 < s.len() && s[i + 1] == 0x0a {
            assert(rest.subrange(2, rest.len() as int) =~= s@.subrange(i + 2, s@.len() as int));
            i = i + 2;
        } else {
            let ghost before = out@;
            out.push(s[i]);
            assert(rest.subrange(1, rest.len() as int) =~= s@.subrange(i + 1, s@.len() as int));
            assert(before + (seq![s@[i as int]] + strip_newlines(s@.subrange(i + 1, s@.len() as int))) =~= out@
                + strip_newlines(s@.subrange(i + 1, s@.len() as int)));
            i = i + 1;
        }
    }
    assert(s@.subrange(i as int, s@.len() as int) =~= Seq::<u8>::empty());
    assert(out@ + Seq::<u8>::empty() =~= out@);
    out
}

/// What decrypting a base64 name with `key` gives.
pub open spec fn decrypt_spec(s: Seq<u8>, key: Seq<u8>) -> Result<Seq<u8>, DecryptError> {
    match base64_decoded(strip_newlines(s)) {
        None => Err(DecryptError::Base64),
        Some(ct) => if ct.len() < 16 {
            Err(DecryptError::Cipher)
        } else {
            match decrypted(ct, key) {
                None => Err(DecryptError::Cipher),
                Some(pt) => if vstd::utf8::valid_utf8(pt) {
                    Ok(pt)
                } else {
                    Err(DecryptError::Utf8)
                },
            }
        },
    }
}

/// Accepts decrypted bytes that are UTF-8.
pub fn check_plaintext(pt: Vec<u8>) -> (r: Result<Vec<u8>, DecryptError>)
    ensures
        vstd::utf8::valid_utf8(pt@) ==> (r matches Ok(v) && v@ == pt@),
        !vstd::utf8::valid_utf8(pt@) ==> r == Err::<Vec<u8>, DecryptError>(DecryptError::Utf8),
{
    if is_utf8(pt.as_slice()) {
        Ok(pt)
    } else {
        Err(DecryptError::Utf8)
    }
}

/// Decrypts one base64 name with the depot key.
pub fn decrypt_string(s: &[u8], key: &[u8; 32]) -> (r: Result<Vec<u8>, DecryptError>)
    ensures
        match r {
            Ok(v) => decrypt_spec(s@, key@) == Ok::<Seq<u8>, DecryptError>(v@),
            Err(e) => decrypt_spec(s@, key@) == Err::<Seq<u8>, DecryptError>(e),
        },
{
    let encoded = join_lines(s);
    let ct = match decode_base64(encoded.as_slice()) {
        Some(ct) => ct,
        None => {
            return Err(DecryptError::Base64);
        },
    };
    if ct.len() < 16 {
        return Err(DecryptError::Cipher);
    }
    match symmetric_decrypt(ct.as_slice(), key) {
        Some(pt) => check_plaintext(pt),
        None => Err(DecryptError::Cipher),
    }
}

/// A mapping with its name, and link target if any, decrypted.
pub open spec fn mapping_decrypted(old: FileMapping, new: FileMapping, key: Seq<u8>) -> bool {
    &&& decrypt_spec(old.filename@, key) == Ok::<Seq<u8>, DecryptError>(new.filename@)
    &&& match (old.linktarget, new.linktarget) {
        (Some(o), Some(n)) => decrypt_spec(o@, key) == Ok::<Seq<u8>, DecryptError>(n@),
        (None, None) => true,
        _ => false,
    }
    &&& new.flags == old.flags
    &&& new.size == old.size
    &&& new.sha_filename == old.sha_filename
    &&& new.chunks == old.chunks
}

impl Manifest {
    /// Decrypts the file names (and link targets) of a manifest whose metadata says
    /// they are encrypted, with the depot key, and clears the flag.
    pub fn decrypt_filenames(&mut self, key: &[u8; 32]) -> (r: Result<(), DecryptError>)
        ensures
            final(self).signature@ == old(self).signature@,
            !old(self).metadata.filenames_encrypted ==> r is Ok && final(self).payload@ == old(self).payload@
                && final(self).metadata == old(self).metadata,
            old(self).metadata.filenames_encrypted && r is Ok ==> {
                &&& !final(self).metadata.filenames_encrypted
                &&& final(self).payload@.len() == old(self).payload@.len()
                &&& forall|i: int| 0 <= i < old(self).payload@.len() ==> mapping_decrypted(
                    #[trigger] old(self).payload@[i],
                    final(self).payload@[i],
                    key@,
                )
            },
            r matches Err(e) ==> exists|i: int| 0 <= i < old(self).payload@.len() && (decrypt_spec(
                (#[trigger] old(self).payload@[i]).filename@,
                key@,
            ) == Err::<Seq<u8>, DecryptError>(e) || (old(self).payload@[i].linktarget matches Some(t) && (decrypt_spec(
                t@,
                key@,
            ) == Err::<Seq<u8>, DecryptError>(e)))),
    {
        if !self.metadata.filenames_encrypted {
            return Ok(());
        }
        let ghost orig = self.payload@;
        let mut i: usize = 0;
        while i < self.payload.len()
            invariant
                i <= self.payload@.len() == orig.len(),
                self.metadata == old(self).metadata,
                self.signature@ == old(self).signature@,
                old(self).metadata.filenames_encrypted,
                orig == old(self).payload@,
                forall|j: int| 0 <= j < i ==> mapping_decrypted(#[trigger] orig[j], self.payload@[j], key@),
                forall|j: int| i <= j < orig.len() ==> #[trigger] self.payload@[j] == orig[j],
            decreases orig.len() - i,
        {
            let mut m = FileMapping {
                filename: Vec::new(),
                flags: 0,
                size: 0,
                linktarget: None,
                sha_filename: Vec::new(),
                chunks: Vec::new(),
            };
            std::mem::swap(&mut m, &mut self.payload[i]);
            assert(m == orig[i as int]);
            let name = match decrypt_string(m.filename.as_slice(), key) {
                Ok(n) => n,
                Err(e) => {
                    std::mem::swap(&mut m, &mut self.payload[i]);
                    return Err(e);
                },
            };
            let link = match m.linktarget.take() {
                Some(t) => match decrypt_string(t.as_slice(), key) {
                    Ok(n) => Some(n),
                    Err(e) => {
                        m.linktarget = Some(t);
                        std::mem::swap(&mut m, &mut self.payload[i]);
                        return Err(e);
                    },
                },
                None => None,
            };
            m.filename = name;
            m.linktarget = link;
            std::mem::swap(&mut m, &mut self.payload[i]);
            i = i + 1;
        }
        self.metadata.filenames_encrypted = false;
        Ok(())
    }
}

/// The bytes that encoding file mappings as a payload message gives, or `None`
/// where the encoder refuses.
pub uninterp spec fn encoded_payload(v: Seq<MappingView>) -> Option<Seq<u8>>;

/// The bytes of metadata encoded as a metadata message.
pub uninterp spec fn encoded_metadata(m: ManifestMetadata) -> Option<Seq<u8>>;

/// The bytes of a signature encoded as a signature message.
pub uninterp spec fn encoded_signature(s: Seq<u8>) -> Option<Seq<u8>>;

/// Every name and link target of the mappings is UTF-8.
pub open spec fn names_utf8(v: Seq<FileMapping>) -> bool {
    forall|i: int|
        0 <= i < v.len() ==> vstd::utf8::valid_utf8((#[trigger] v[i]).filename@) && (v[i].linktarget matches Some(
            t,
        ) ==> vstd::utf8::valid_utf8(t@))
}

/// Relies on `protobuf::Message::write_to_bytes` for `ContentManifestPayload`; names
/// are UTF-8, so they convert to strings unchanged.
#[verifier::external_body]
fn encode_payload(v: &Vec<FileMapping>) -> (r: Option<Vec<u8>>)
    requires
        names_utf8(v@),
    ensures
        match r {
            Some(b) => encoded_payload(mappings_view(v@)) == Some(b@),
            None => encoded_payload(mappings_view(v@)) is None,
        },
{
    let text = |b: &Vec<u8>| String::from_utf8_lossy(b).into_owned();
    let mut p = ContentManifestPayload::new();
    p.mappings = v.iter().map(|f| ProtoMapping {
        filename: Some(text(&f.filename)), flags: Some(f.flags), size: Some(f.size),
        linktarget: f.linktarget.as_ref().map(text), sha_filename: Some(f.sha_filename.clone()),
        chunks: f.chunks.iter().map(|c| ChunkData { sha: Some(c.sha.clone()), offset: Some(c.offset),
            cb_original: Some(c.cb_original), ..Default::default() }).collect(),
        ..Default::default()
    }).collect();
    p.write_to_bytes().ok()
}

/// Relies on `protobuf::Message::write_to_bytes` for `ContentManifestMetadata`.
#[verifier::external_body]
fn encode_metadata(m: &ManifestMetadata) -> (r: Option<Vec<u8>>)
    ensures
        match r {
            Some(b) => encoded_metadata(*m) == Some(b@),
            None => encoded_metadata(*m) is None,
        },
{
    ContentManifestMetadata {
        depot_id: Some(m.depot_id), gid_manifest: Some(m.gid_manifest), creation_time: Some(m.creation_time),
        filenames_encrypted: Some(m.filenames_encrypted), cb_disk_original: Some(m.cb_disk_original),
        cb_disk_compressed: Some(m.cb_disk_compressed), unique_chunks: Some(m.unique_chunks),
        crc_encrypted: Some(m.crc_encrypted), crc_clear: Some(m.crc_clear), ..Default::default()
    }.write_to_bytes().ok()
}

/// Relies on `protobuf::Message::write_to_bytes` for `ContentManifestSignature`.
#[verifier::external_body]
fn encode_signature(s: &Vec<u8>) -> (r: Option<Vec<u8>>)
    ensures
        match r {
            Some(b) => encoded_signature(s@) == Some(b@),
            None => encoded_signature(s@) is None,
        },
{
    ContentManifestSignature { signature: Some(s.clone()), ..Default::default() }.write_to_bytes().ok()
}

fn all_names_utf8(v: &Vec<FileMapping>) -> (r: bool)
    ensures
        r == names_utf8(v@),
{
    let mut i: usize = 0;
    while i < v.len()
        invariant
            i <= v@.len(),
            forall|j: int|
                0 <= j < i ==> vstd::utf8::valid_utf8((#[trigger] v@[j]).filename@) && (v@[j].linktarget matches Some(
                    t,
                ) ==> vstd::utf8::valid_utf8(t@)),
        decreases v@.len() - i,
    {
        if !is_utf8(v[i].filename.as_slice()) {
            return false;
        }
        match &v[i].linktarget {
            Some(t) => {
                if !is_utf8(t.as_slice()) {
                    return false;
                }
            },
            None => {},
        }
        i = i + 1;
    }
    true
}

/// What writing a manifest gives: the three encoded records framed in order
/// payload, metadata, signature, then the end marker. `None` where a name is not
/// UTF-8, an encoder refuses, or a record does not fit a 32-bit length.
pub open spec fn written_spec(m: (Seq<MappingView>, ManifestMetadata, Seq<u8>), utf8: bool) -> Option<Seq<u8>> {
    if !utf8 {
        None
    } else {
        match (encoded_payload(m.0), encoded_metadata(m.1), encoded_signature(m.2)) {
            (Some(p), Some(md), Some(s)) => if p.len() <= u32::MAX && md.len() <= u32::MAX && s.len() <= u32::MAX {
                Some(envelope_bytes(p, md, s))
            } else {
                None
            },
            _ => None,
        }
    }
}

impl Manifest {
    /// Writes the manifest: each record encoded, then framed.
    pub fn write(&self) -> (r: Option<Vec<u8>>)
        ensures
            match r {
                Some(b) => written_spec(self@, names_utf8(self.payload@)) == Some(b@),
                None => written_spec(self@, names_utf8(self.payload@)) is None,
            },
    {
        if !all_names_utf8(&self.payload) {
            return None;
        }
        let payload = encode_payload(&self.payload);
        let metadata = encode_metadata(&self.metadata);
        let signature = encode_signature(&self.signature);
        match (payload, metadata, signature) {
            (Some(payload), Some(metadata), Some(signature)) => {
                if payload.len() as u64 > u32::MAX as u64 || metadata.len() as u64 > u32::MAX as u64
                    || signature.len() as u64 > u32::MAX as u64 {
                    return None;
                }
                let e = ManifestEnvelope { payload, metadata, signature };
                Some(e.write())
            },
            _ => None,
        }
    }
}

} // verus!
