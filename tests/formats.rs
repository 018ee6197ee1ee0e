use steam_backup::csm::{ChunkStoreManifest, CsmError};
use steam_backup::envelope::{EnvelopeError, ManifestEnvelope};
use steam_backup::sku::StockKeepingUnit;

fn csm_bytes(tag: u8, depot: u32, records: &[([u8; 20], u64, u32, u32)]) -> Vec<u8> {
    let mut b = b"SCFS\x14\x00\x00\x00".to_vec();
    b.extend_from_slice(&[tag, 0, 0, 0]);
    b.extend_from_slice(&depot.to_le_bytes());
    b.extend_from_slice(&(records.len() as u32).to_le_bytes());
    for (sha, offset, u, c) in records {
        b.extend_from_slice(sha);
        b.extend_from_slice(&offset.to_le_bytes());
        b.extend_from_slice(&u.to_le_bytes());
        b.extend_from_slice(&c.to_le_bytes());
    }
    b
}

#[test]
fn csm_with_zero_chunks_parses_to_empty_list() {
    let m = ChunkStoreManifest::read(&csm_bytes(2, 1234, &[])).unwrap();
    assert!(!m.is_encrypted);
    assert_eq!(m.depot, 1234);
    assert!(m.chunks.is_empty());
}

#[test]
fn csm_reads_records() {
    let sha = [7u8; 20];
    let m = ChunkStoreManifest::read(&csm_bytes(3, 9, &[(sha, 0x0102030405, 6, 130)])).unwrap();
    assert!(m.is_encrypted);
    assert_eq!(m.chunks.len(), 1);
    assert_eq!(m.chunks[0].sha, sha.to_vec());
    assert_eq!(m.chunks[0].chunk.offset, 0x0102030405);
    assert_eq!(m.chunks[0].chunk.uncompressed_length, 6);
    assert_eq!(m.chunks[0].chunk.compressed_length, 130);
}

#[test]
fn csm_rejects_bad_magic_tag_and_truncation() {
    let mut bad = csm_bytes(2, 1, &[]);
    bad[0] = b'X';
    assert_eq!(ChunkStoreManifest::read(&bad).err(), Some(CsmError::Malformed));
    assert_eq!(ChunkStoreManifest::read(&csm_bytes(4, 1, &[])).err(), Some(CsmError::Malformed));
    let mut cut = csm_bytes(2, 1, &[([1u8; 20], 0, 1, 1)]);
    cut.pop();
    assert_eq!(ChunkStoreManifest::read(&cut).err(), Some(CsmError::Malformed));
}

#[test]
fn envelope_round_trip() {
    let e = ManifestEnvelope { payload: vec![1, 2, 3], metadata: vec![], signature: vec![9; 300] };
    let bytes = e.write();
    assert_eq!(&bytes[0..4], &0x71F617D0u32.to_le_bytes());
    assert_eq!(&bytes[bytes.len() - 4..], &0x32C415ABu32.to_le_bytes());
    let back = ManifestEnvelope::read(&bytes).unwrap();
    assert_eq!(back.payload, vec![1, 2, 3]);
    assert_eq!(back.metadata, Vec::<u8>::new());
    assert_eq!(back.signature, vec![9; 300]);
}

#[test]
fn envelope_rejects_unknown_tag_and_missing_record() {
    let mut b = 0x12345678u32.to_le_bytes().to_vec();
    b.extend_from_slice(&0x32C415ABu32.to_le_bytes());
    assert_eq!(ManifestEnvelope::read(&b).err(), Some(EnvelopeError::Malformed));
    let only_end = 0x32C415ABu32.to_le_bytes().to_vec();
    assert_eq!(ManifestEnvelope::read(&only_end).err(), Some(EnvelopeError::Malformed));
}

const SKU: &str = "\"SKU\"\n{\n\t\"name\"\t\t\"Some Game\"\n\t\"disks\"\t\t\"1\"\n\t\"disk\"\t\t\"1\"\n\t\"backup\"\t\t\"1\"\n\t\"contenttype\"\t\t\"3\"\n\t\"apps\"\n\t{\n\t\t\"0\"\t\t\"10\"\n\t}\n\t\"depots\"\n\t{\n\t\t\"0\"\t\t\"1234\"\n\t\t\"1\"\t\t\"1235\"\n\t}\n\t\"manifests\"\n\t{\n\t\t\"1234\"\t\t\"5555\"\n\t}\n\t\"chunkstores\"\n\t{\n\t\t\"1234\"\n\t\t{\n\t\t\t\"1\"\t\t\"130\"\n\t\t}\n\t}\n}\n";

#[test]
fn sku_parses_all_fields() {
    let sku = StockKeepingUnit::read(SKU.as_bytes()).unwrap();
    assert_eq!(sku.name, b"Some Game".to_vec());
    assert_eq!((sku.disks, sku.disk, sku.backup, sku.contenttype), (1, 1, 1, 3));
    assert_eq!(sku.apps, vec![10]);
    assert_eq!(sku.depots, vec![1234, 1235]);
    assert_eq!(sku.manifests.get(&1234), Some(&5555));
    assert_eq!(sku.chunkstores.get(&1234).unwrap().get(&1), Some(&130));
}

#[test]
fn sku_with_empty_apps_and_depots_parses() {
    let text = "\"sku\"\n{\n\t\"NAME\"\t\t\"x\"\n\t\"disks\"\t\t\"1\"\n\t\"disk\"\t\t\"1\"\n\t\"backup\"\t\t\"0\"\n\t\"contenttype\"\t\t\"0\"\n\t\"apps\"\n\t{\n\t}\n\t\"depots\"\n\t{\n\t}\n\t\"manifests\"\n\t{\n\t}\n\t\"chunkstores\"\n\t{\n\t}\n}\n";
    let sku = StockKeepingUnit::read(text.as_bytes()).unwrap();
    assert!(sku.apps.is_empty());
    assert!(sku.depots.is_empty());
    assert!(sku.manifests.is_empty());
    assert!(sku.chunkstores.is_empty());
}

#[test]
fn sku_rejects_sparse_list_and_bad_number() {
    let sparse = SKU.replace("\"0\"\t\t\"10\"", "\"1\"\t\t\"10\"");
    assert!(StockKeepingUnit::read(sparse.as_bytes()).is_err());
    let bad = SKU.replace("\"disks\"\t\t\"1\"", "\"disks\"\t\t\"one\"");
    assert!(StockKeepingUnit::read(bad.as_bytes()).is_err());
    let overflow = SKU.replace("\"contenttype\"\t\t\"3\"", "\"contenttype\"\t\t\"4294967296\"");
    assert!(StockKeepingUnit::read(overflow.as_bytes()).is_err());
}

#[test]
fn envelope_rejects_a_repeated_record() {
    let e = ManifestEnvelope { payload: vec![1], metadata: vec![2], signature: vec![3] };
    let mut b = 0x71F617D0u32.to_le_bytes().to_vec();
    b.extend_from_slice(&1u32.to_le_bytes());
    b.push(9);
    b.extend_from_slice(&e.write());
    assert_eq!(ManifestEnvelope::read(&b).err(), Some(EnvelopeError::Malformed));
}
