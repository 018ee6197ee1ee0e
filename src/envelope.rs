//! The tagged envelope of a depot manifest: three length-prefixed records
//! (payload, metadata, signature) in any order, closed by an end marker.
use vstd::prelude::*;
use crate::le::{le_u32_at, u32_le_bytes, read_u32_le, push_u32_le, copy_range,
    lemma_le_u32_bounds, lemma_u32_le_round_trip};

verus! {

pub const PAYLOAD_MAGIC: u32 = 0x71F617D0;
pub const METADATA_MAGIC: u32 = 0x1F4812BE;
pub const SIGNATURE_MAGIC: u32 = 0x1B81B817;
pub const END_OF_MANIFEST_MAGIC: u32 = 0x32C415AB;

/// The three records of a depot manifest, each an encoded protobuf message.
pub struct ManifestEnvelope {
    pub payload: Vec<u8>,
    pub metadata: Vec<u8>,
    pub signature: Vec<u8>,
}

#[derive(Clone, Copy, Debug, PartialEq, Eq, Structural)]
pub enum EnvelopeError {
    /// An unknown tag, a missing or repeated record, or a record cut short.
    Malformed,
}

pub type Slots = (Option<Seq<u8>>, Option<Seq<u8>>, Option<Seq<u8>>);

impl ManifestEnvelope {
    pub open spec fn view(&self) -> (Seq<u8>, Seq<u8>, Seq<u8>) {
        (self.payload@, self.metadata@, self.signature@)
    }
}

/// The records read from position `pos` up to the end marker, on top of those
/// already in `acc`. `None` when the bytes end early, hold an unknown tag, or hold
/// a second record of a kind.
pub open spec fn scan_records(b: Seq<u8>, pos: int, acc: Slots) -> Option<Slots>
    decreases b.len() - pos,
{
    if pos < 0 || pos + 4 > b.len() {
        None
    } else {
        let tag = le_u32_at(b, pos);
        if tag == END_OF_MANIFEST_MAGIC {
            Some(acc)
        } else if tag == PAYLOAD_MAGIC || tag == METADATA_MAGIC || tag == SIGNATURE_MAGIC {
            if pos + 8 > b.len() {
                None
            } else {
                let len = le_u32_at(b, pos + 4);
                let end = pos + 8 + len;
                if len < 0 || end > b.len() {
                    None
                } else {
                    let rec = b.subrange(pos + 8, end);
                    let taken = if tag == PAYLOAD_MAGIC {
                        acc.0 is Some
                    } else if tag == METADATA_MAGIC {
                        acc.1 is Some
                    } else {
                        acc.2 is Some
                    };
                    let next = if tag == PAYLOAD_MAGIC {
                        (Some(rec), acc.1, acc.2)
                    } else if tag == METADATA_MAGIC {
                        (acc.0, Some(rec), acc.2)
                    } else {
                        (acc.0, acc.1, Some(rec))
                    };
                    if taken {
                        None
                    } else {
                        scan_records(b, end, next)
                    }
                }
            }
        } else {
            None
        }
    }
}

pub open spec fn opt_view(v: &Option<Vec<u8>>) -> Option<Seq<u8>> {
    match v {
        Some(v) => Some(v@),
        None => None,
    }
}

pub open spec fn slots_of(p: &Option<Vec<u8>>, m: &Option<Vec<u8>>, s: &Option<Vec<u8>>) -> Slots {
    (opt_view(p), opt_view(m), opt_view(s))
}

/// The three records of a well-formed envelope, or `None`.
pub open spec fn envelope_spec(b: Seq<u8>) -> Option<(Seq<u8>, Seq<u8>, Seq<u8>)> {
    match scan_records(b, 0, (None, None, None)) {
        Some((Some(p), Some(m), Some(s))) => Some((p, m, s)),
        _ => None,
    }
}

/// A length-prefixed record.
pub open spec fn record_bytes(tag: u32, data: Seq<u8>) -> Seq<u8> {
    u32_le_bytes(tag) + u32_le_bytes(data.len() as u32) + data
}

/// The bytes written for the three records: payload, metadata, signature, end marker.
pub open spec fn envelope_bytes(p: Seq<u8>, m: Seq<u8>, s: Seq<u8>) -> Seq<u8> {
    record_bytes(PAYLOAD_MAGIC, p) + record_bytes(METADATA_MAGIC, m) + record_bytes(
        SIGNATURE_MAGIC,
        s,
    ) + u32_le_bytes(END_OF_MANIFEST_MAGIC)
}

proof fn lemma_le_u32_at_prefix(pre: Seq<u8>, v: u32, rest: Seq<u8>)
    ensures
        le_u32_at(pre + u32_le_bytes(v) + rest, pre.len() as int) == v,
{
    lemma_u32_le_round_trip(v);
    let b = pre + u32_le_bytes(v) + rest;
    let n = pre.len() as int;
    assert(b[n] == u32_le_bytes(v)[0]);
    assert(b[n + 1] == u32_le_bytes(v)[1]);
    assert(b[n + 2] == u32_le_bytes(v)[2]);
    assert(b[n + 3] == u32_le_bytes(v)[3]);
}

proof fn lemma_scan_record(pre: Seq<u8>, tag: u32, data: Seq<u8>, rest: Seq<u8>, acc: Slots)
    requires
        data.len() <= u32::MAX,
        tag == PAYLOAD_MAGIC || tag == METADATA_MAGIC || tag == SIGNATURE_MAGIC,
        tag == PAYLOAD_MAGIC ==> acc.0 is None,
        tag == METADATA_MAGIC ==> acc.1 is None,
        tag == SIGNATURE_MAGIC ==> acc.2 is None,
    ensures
        ({
            let b = pre + record_bytes(tag, data) + rest;
            let next = if tag == PAYLOAD_MAGIC {
                (Some(data), acc.1, acc.2)
            } else if tag == METADATA_MAGIC {
                (acc.0, Some(data), acc.2)
            } else {
                (acc.0, acc.1, Some(data))
            };
            scan_records(b, pre.len() as int, acc) == scan_records(
                b,
                (pre.len() + 8 + data.len()) as int,
                next,
            )
        }),
{
    let b = pre + record_bytes(tag, data) + rest;
    let n = pre.len() as int;
    assert(b =~= pre + u32_le_bytes(tag) + (u32_le_bytes(data.len() as u32) + data + rest));
    lemma_le_u32_at_prefix(pre, tag, u32_le_bytes(data.len() as u32) + data + rest);
    assert(b =~= (pre + u32_le_bytes(tag)) + u32_le_bytes(data.len() as u32) + (data + rest));
    lemma_le_u32_at_prefix(pre + u32_le_bytes(tag), data.len() as u32, data + rest);
    assert(b.subrange(n + 8, n + 8 + data.len()) =~= data);
}

/// Writing three records and reading the bytes back gives the same three records,
/// byte for byte.
#[verifier::rlimit(40)]
pub proof fn lemma_envelope_round_trip(p: Seq<u8>, m: Seq<u8>, s: Seq<u8>)
    requires
        p.len() <= u32::MAX,
        m.len() <= u32::MAX,
        s.len() <= u32::MAX,
    ensures
        envelope_spec(envelope_bytes(p, m, s)) == Some((p, m, s)),
{
    let b = envelope_bytes(p, m, s);
    let r1 = record_bytes(PAYLOAD_MAGIC, p);
    let r2 = record_bytes(METADATA_MAGIC, m);
    let r3 = record_bytes(SIGNATURE_MAGIC, s);
    let end = u32_le_bytes(END_OF_MANIFEST_MAGIC);
    let none: Option<Seq<u8>> = None;
    assert(b =~= Seq::<u8>::empty() + r1 + (r2 + r3 + end));
    lemma_scan_record(Seq::<u8>::empty(), PAYLOAD_MAGIC, p, r2 + r3 + end, (none, none, none));
    assert(b =~= r1 + r2 + (r3 + end));
    lemma_scan_record(r1, METADATA_MAGIC, m, r3 + end, (Some(p), none, none));
    assert(b =~= (r1 + r2) + r3 + end);
    lemma_scan_record(r1 + r2, SIGNATURE_MAGIC, s, end, (Some(p), Some(m), none));
    assert(b =~= (r1 + r2 + r3) + end + Seq::<u8>::empty());
    lemma_le_u32_at_prefix(r1 + r2 + r3, END_OF_MANIFEST_MAGIC, Seq::<u8>::empty());
    lemma_u32_le_round_trip(END_OF_MANIFEST_MAGIC);
}

impl ManifestEnvelope {
    /// Reads the three records of a depot manifest.
    pub fn read(b: &[u8]) -> (r: Result<ManifestEnvelope, EnvelopeError>)
        ensures
            r is Ok <==> envelope_spec(b@) is Some,
            r matches Ok(e) ==> envelope_spec(b@) == Some(e@),
    {
        let n = b.len();
        let mut payload: Option<Vec<u8>> = None;
        let mut metadata: Option<Vec<u8>> = None;
        let mut signature: Option<Vec<u8>> = None;
        let mut pos: usize = 0;
        loop
            invariant
                n == b@.len(),
                pos <= n,
                scan_records(b@, 0, (None, None, None)) == scan_records(
                    b@,
                    pos as int,
                    slots_of(&payload, &metadata, &signature),
                ),
            ensures
                scan_records(b@, 0, (None, None, None)) == Some(
                    slots_of(&payload, &metadata, &signature),
                ),
            decreases n - pos,
        {
            let ghost acc = slots_of(&payload, &metadata, &signature);
            if n - pos < 4 {
                assert(scan_records(b@, pos as int, acc) is None);
                return Err(EnvelopeError::Malformed);
            }
            let tag = read_u32_le(b, pos);
            if tag == END_OF_MANIFEST_MAGIC {
                assert(scan_records(b@, pos as int, acc) == Some(acc));
                break;
            }
            if tag != PAYLOAD_MAGIC && tag != METADATA_MAGIC && tag != SIGNATURE_MAGIC {
                assert(scan_records(b@, pos as int, acc) is None);
                return Err(EnvelopeError::Malformed);
            }
            if n - pos < 8 {
                assert(scan_records(b@, pos as int, acc) is None);
                return Err(EnvelopeError::Malformed);
            }
            let len = read_u32_le(b, pos + 4) as usize;
            proof {
                lemma_le_u32_bounds(b@, pos + 4);
            }
            if n - pos - 8 < len {
                assert(scan_records(b@, pos as int, acc) is None);
                return Err(EnvelopeError::Malformed);
            }
            let taken = if tag == PAYLOAD_MAGIC {
                payload.is_some()
            } else if tag == METADATA_MAGIC {
                metadata.is_some()
            } else {
                signature.is_some()
            };
            if taken {
                assert(scan_records(b@, pos as int, acc) is None);
                return Err(EnvelopeError::Malformed);
            }
            let rec = copy_range(b, pos + 8, pos + 8 + len);
            if tag == PAYLOAD_MAGIC {
                payload = Some(rec);
            } else if tag == METADATA_MAGIC {
                metadata = Some(rec);
            } else {
                signature = Some(rec);
            }
            assert(scan_records(b@, pos as int, acc) == scan_records(
                b@,
                pos + 8 + len,
                slots_of(&payload, &metadata, &signature),
            ));
            pos = pos + 8 + len;
        }
        match (payload, metadata, signature) {
            (Some(payload), Some(metadata), Some(signature)) => {
                Ok(ManifestEnvelope { payload, metadata, signature })
            },
            _ => Err(EnvelopeError::Malformed),
        }
    }

    /// Writes the records in the order payload, metadata, signature, then the end marker.
    pub fn write(&self) -> (r: Vec<u8>)
        requires
            self.payload@.len() <= u32::MAX,
            self.metadata@.len() <= u32::MAX,
            self.signature@.len() <= u32::MAX,
        ensures
            r@ == envelope_bytes(self.payload@, self.metadata@, self.signature@),
            envelope_spec(r@) == Some(self@),
    {
        let mut out: Vec<u8> = Vec::new();
        write_record(&mut out, PAYLOAD_MAGIC, &self.payload);
        write_record(&mut out, METADATA_MAGIC, &self.metadata);
        write_record(&mut out, SIGNATURE_MAGIC, &self.signature);
        push_u32_le(&mut out, END_OF_MANIFEST_MAGIC);
        proof {
            assert(out@ =~= envelope_bytes(self.payload@, self.metadata@, self.signature@));
            lemma_envelope_round_trip(self.payload@, self.metadata@, self.signature@);
        }
        out
    }
}

fn write_record(out: &mut Vec<u8>, tag: u32, data: &Vec<u8>)
    requires
        data@.len() <= u32::MAX,
    ensures
        final(out)@ == old(out)@ + record_bytes(tag, data@),
{
    push_u32_le(out, tag);
    push_u32_le(out, data.len() as u32);
    let mut i: usize = 0;
    let ghost start = out@;
    while i < data.len()
        invariant
            i <= data@.len(),
            out@ == start + data@.subrange(0, i as int),
        decreases data@.len() - i,
    {
        out.push(data[i]);
        i = i + 1;
        assert(out@ =~= start + data@.subrange(0, i as int));
    }
    assert(data@.subrange(0, i as int) =~= data@);
    assert(final(out)@ =~= old(out)@ + record_bytes(tag, data@));
}

} // verus!
