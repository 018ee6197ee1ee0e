use std::io::Write;

use sha1::Digest;
use steam_backup::chunkstore::{decompress_and_verify, ChunkError, ChunkStore, OpenError};
use steam_backup::csm::ChunkStoreManifest;
use steam_backup::envelope::ManifestEnvelope;
use steam_backup::fs::{BackupFs, FsError, OpenError as CreateError, PrepareError, FILE_DIRECTORY_FILE, FILE_NON_DIRECTORY_FILE, FILE_OPEN};
use steam_backup::handles::HandleTable;
use steam_backup::manifest::{ChunkRef, FileMapping, Manifest, ManifestError, ManifestMetadata};
use steam_backup::path::split_name;
use steam_backup::read::{chunks_to_fetch, read_data, ReadError};
use steam_backup::sku::StockKeepingUnit;
use steam_backup::verify::{depot_summary, verify_chunkstore, Accounting};
use steam_backup::vfs::{FileEntry, Node, Vfs, ROOT_INODE};
use steam_vent_proto::content_manifest::content_manifest_payload::{file_mapping::ChunkData, FileMapping as ProtoMapping};
use steam_vent_proto::content_manifest::{ContentManifestMetadata, ContentManifestPayload, ContentManifestSignature};
use steam_vent_proto::protobuf::Message;

fn zip_of(data: &[u8]) -> Vec<u8> {
    let mut w = zip::ZipWriter::new(std::io::Cursor::new(Vec::new()));
    let opts = zip::write::SimpleFileOptions::default().compression_method(zip::CompressionMethod::Stored);
    w.start_file("chunk", opts).unwrap();
    w.write_all(data).unwrap();
    w.finish().unwrap().into_inner()
}

fn sha1(data: &[u8]) -> Vec<u8> {
    sha1::Sha1::digest(data).to_vec()
}

fn csm_bytes(depot: u32, records: &[(Vec<u8>, u64, u32, u32)]) -> Vec<u8> {
    let mut b = b"SCFS\x14\x00\x00\x00\x02\x00\x00\x00".to_vec();
    b.extend_from_slice(&depot.to_le_bytes());
    b.extend_from_slice(&(records.len() as u32).to_le_bytes());
    for (sha, offset, u, c) in records {
        b.extend_from_slice(sha);
        b.extend_from_slice(&offset.to_le_bytes());
        b.extend_from_slice(&u.to_le_bytes());
        b.extend_from_slice(&c.to_le_bytes());
    }
    b
}

fn manifest_bytes(depot: u32, time: u32, encrypted: bool, files: &[(&str, u32, u64, Vec<(Vec<u8>, u64, u32)>)]) -> Vec<u8> {
    let mut payload = ContentManifestPayload::new();
    for (name, flags, size, chunks) in files {
        let mut m = ProtoMapping::new();
        m.set_filename(name.to_string());
        m.set_flags(*flags);
        m.set_size(*size);
        for (sha, offset, cb) in chunks {
            let mut c = ChunkData::new();
            c.set_sha(sha.clone());
            c.set_offset(*offset);
            c.set_cb_original(*cb);
            m.chunks.push(c);
        }
        payload.mappings.push(m);
    }
    let mut metadata = ContentManifestMetadata::new();
    metadata.set_depot_id(depot);
    metadata.set_creation_time(time);
    metadata.set_filenames_encrypted(encrypted);
    metadata.set_unique_chunks(1);
    let mut signature = ContentManifestSignature::new();
    signature.set_signature(vec![0xAB; 4]);
    let e = ManifestEnvelope {
        payload: payload.write_to_bytes().unwrap(),
        metadata: metadata.write_to_bytes().unwrap(),
        signature: signature.write_to_bytes().unwrap(),
    };
    e.write()
}

fn meta(time: u32) -> ManifestMetadata {
    ManifestMetadata {
        depot_id: 1,
        gid_manifest: 0,
        creation_time: time,
        filenames_encrypted: false,
        cb_disk_original: 0,
        cb_disk_compressed: 0,
        unique_chunks: 0,
        crc_encrypted: 0,
        crc_clear: 0,
    }
}

fn entry(name: &str, time: u32, size: u64, chunks: Vec<ChunkRef>) -> FileEntry {
    FileEntry {
        metadata: meta(time),
        mapping: FileMapping {
            filename: name.as_bytes().to_vec(),
            flags: 0,
            size,
            linktarget: None,
            sha_filename: vec![],
            chunks,
        },
    }
}

fn sku_text(depot: u32, length: usize) -> String {
    format!("\"SKU\"\n{{\n\t\"name\"\t\t\"Game\"\n\t\"disks\"\t\t\"1\"\n\t\"disk\"\t\t\"1\"\n\t\"backup\"\t\t\"1\"\n\t\"contenttype\"\t\t\"3\"\n\t\"apps\"\n\t{{\n\t\t\"0\"\t\t\"10\"\n\t}}\n\t\"depots\"\n\t{{\n\t\t\"0\"\t\t\"{depot}\"\n\t}}\n\t\"manifests\"\n\t{{\n\t\t\"{depot}\"\t\t\"77\"\n\t}}\n\t\"chunkstores\"\n\t{{\n\t\t\"{depot}\"\n\t\t{{\n\t\t\t\"1\"\t\t\"{length}\"\n\t\t}}\n\t}}\n}}\n")
}

/// The decompressed bytes of every chunk of `node` that the read touches, fetched as a mount does.
fn fetch(fs: &mut BackupFs, node_ino: u64, csd: &Vec<u8>) -> Vec<Vec<u8>> {
    let shas: Vec<Vec<u8>> = match fs.vfs.get_node(node_ino).unwrap() {
        Node::Real { file_mapping, .. } => file_mapping.chunks.iter().map(|c| c.sha.clone()).collect(),
        Node::Synthetic { .. } => vec![],
    };
    let mut out = Vec::new();
    for sha in shas {
        let (s, k) = fs.router.route(&fs.stores, &sha).unwrap();
        let step = fs.stores[s].begin_read(k);
        assert_eq!(step.seek, None);
        out.push(fs.stores[s].chunk_data(k, csd).unwrap());
    }
    out
}

#[test]
fn minimal_verify_all_good() {
    let data = b"hello\n";
    let compressed = zip_of(data);
    let csm = ChunkStoreManifest::read(&csm_bytes(1234, &[(sha1(data), 0, 6, compressed.len() as u32)])).unwrap();
    let sku = StockKeepingUnit::read(sku_text(1234, compressed.len()).as_bytes()).unwrap();
    assert_eq!(sku.name, b"Game".to_vec());
    assert_eq!(sku.depots, vec![1234]);
    let expected = *sku.chunkstores.get(&1234).unwrap().get(&1).unwrap() as u64;
    let mut store = ChunkStore::open(1234, 1, csm, compressed.len() as u64).unwrap();
    let step = store.begin_read(0);
    assert_eq!(step.seek, None);
    assert_eq!(step.length as usize, compressed.len());
    assert_eq!(store.chunk_data(0, &compressed).unwrap(), data.to_vec());
    let report = verify_chunkstore(expected, compressed.len() as u64, &vec![compressed.len() as u32], &vec![true]);
    assert!(report.valid);
    assert!(!report.size_mismatch);
    assert_eq!(report.accounting, Accounting::Exact);
    assert_eq!(report.chunks, 1);
    let summary = depot_summary(Some(1), &vec![Some(report.chunks)]);
    assert!(summary.valid);
    assert!(!summary.unique_mismatch);
}

#[test]
fn csm_depot_mismatch() {
    let csm = ChunkStoreManifest::read(&csm_bytes(9999, &[])).unwrap();
    assert_eq!(ChunkStore::open(1234, 1, csm, 0).err(), Some(OpenError::DepotMismatch { found: 9999 }));
    assert!(!depot_summary(None, &vec![None]).valid);
}

#[test]
fn wrong_digest() {
    let compressed = zip_of(b"hello\n");
    let csm = ChunkStoreManifest::read(&csm_bytes(1, &[(vec![0u8; 20], 0, 6, compressed.len() as u32)])).unwrap();
    let store = ChunkStore::open(1, 1, csm, compressed.len() as u64).unwrap();
    assert_eq!(store.chunk_data(0, &compressed).err(), Some(ChunkError::WrongDigest));
    let report = verify_chunkstore(compressed.len() as u64, compressed.len() as u64, &vec![compressed.len() as u32], &vec![false]);
    assert!(!report.valid);
}

#[test]
fn chunk_checks_length_and_framing() {
    let compressed = zip_of(b"hello\n");
    assert_eq!(decompress_and_verify(&compressed, 5, &sha1(b"hello\n")).err(), Some(ChunkError::WrongLength));
    assert_eq!(decompress_and_verify(&b"VZa".to_vec(), 5, &vec![]).err(), Some(ChunkError::UnsupportedCompression));
    assert_eq!(decompress_and_verify(&b"XX".to_vec(), 5, &vec![]).err(), Some(ChunkError::UnknownCompression));
    assert_eq!(decompress_and_verify(&b"P".to_vec(), 5, &vec![]).err(), Some(ChunkError::UnknownCompression));
    assert_eq!(decompress_and_verify(&b"PKnot a zip".to_vec(), 5, &vec![]).err(), Some(ChunkError::BadArchive));
}

#[test]
fn mount_and_read() {
    let data = b"hello\n";
    let compressed = zip_of(data);
    let sha = sha1(data);
    let csm = ChunkStoreManifest::read(&csm_bytes(1234, &[(sha.clone(), 0, 6, compressed.len() as u32)])).unwrap();
    let store = ChunkStore::open(1234, 1, csm, compressed.len() as u64).unwrap();
    let m = Manifest::read(&manifest_bytes(1234, 1600000000, false, &[("dir/a.txt", 0, 6, vec![(sha, 0, 6)])])).unwrap();
    assert_eq!(m.payload[0].filename, b"dir/a.txt".to_vec());
    assert_eq!(m.metadata.creation_time, 1600000000);
    assert_eq!(m.signature, vec![0xAB; 4]);
    let sku = StockKeepingUnit::read(sku_text(1234, compressed.len()).as_bytes()).unwrap();
    let mut fs = BackupFs::prepare(&sku, vec![(1234, m)], vec![store]).unwrap();
    let d = fs.lookup(ROOT_INODE, b"dir").unwrap();
    assert!(fs.getattr(d, None).unwrap().is_dir);
    let f = fs.lookup(d, b"a.txt").unwrap();
    let attr = fs.getattr(f, None).unwrap();
    assert!(!attr.is_dir);
    assert_eq!((attr.size, attr.blocks, attr.time, attr.perm), (6, 1, 1600000000, 0o755));
    assert_eq!(fs.lookup(d, b"b.txt").err(), Some(FsError::NoEntry));
    let h = fs.open(f);
    let payloads = fetch(&mut fs, f, &compressed);
    let node = fs.read_target(f, h).unwrap();
    let mut buf = vec![0u8; 1024];
    assert_eq!(read_data(node, 0, &mut buf, &payloads), Ok(6));
    assert_eq!(&buf[..6], b"hello\n");
    assert_eq!(read_data(node, 6, &mut buf, &payloads), Ok(0));
    let mut one = vec![0u8; 1];
    assert_eq!(read_data(node, 7, &mut one, &payloads), Err(ReadError::InvalidParameter));
    assert_eq!(fs.read_target(f, h + 1).err(), Some(FsError::BadFileDescriptor));
    assert_eq!(fs.release(d, h), Err(FsError::BadFileDescriptor));
    assert_eq!(fs.release(f, h), Ok(()));
    assert_eq!(fs.read_target(f, h).err(), Some(FsError::BadFileDescriptor));
    assert_eq!(fs.statfs().1, 3);
}

#[test]
fn synthetic_directory_creation() {
    let vfs = Vfs::assemble(vec![entry("a/b/c.txt", 1234567, 0, vec![])]).unwrap();
    assert_eq!(vfs.inodes.len(), 3);
    let ino_of = |p: &str| vfs.resolve(&split_name(p.as_bytes())).unwrap();
    let (a, ab, abc) = (ino_of("a"), ino_of("a/b"), ino_of("a/b/c.txt"));
    assert_eq!(abc, 2);
    assert!(vfs.children(ROOT_INODE).unwrap().contains(&a));
    assert!(vfs.children(a).unwrap().contains(&ab));
    assert!(vfs.children(ab).unwrap().contains(&abc));
    for i in [a, ab, abc] {
        assert_eq!(vfs.get_node(i).unwrap().metadata().creation_time, 1234567);
    }
    assert_eq!(vfs.get_node(a).unwrap().name(), b"a");
    assert!(matches!(vfs.get_node(ab).unwrap(), Node::Synthetic { .. }));
}

#[test]
fn every_inode_has_exactly_one_parent() {
    let vfs = Vfs::assemble(vec![
        entry("x/y/z", 1, 0, vec![]),
        entry("x/w", 1, 0, vec![]),
        entry("x\\ignored", 1, 0, vec![]),
        entry("q\\r", 1, 0, vec![]),
    ])
    .unwrap();
    let n = vfs.inodes.len() as u64 + 1;
    for i in 2..=n {
        let parents = vfs.dir_map.iter().filter(|l| l.contains(&i)).count();
        let times = vfs.dir_map.iter().map(|l| l.iter().filter(|&&c| c == i).count()).sum::<usize>();
        assert_eq!((parents, times), (1, 1));
    }
    assert!(vfs.resolve(&split_name(b"q/r")).is_some());
    assert!(vfs.resolve(&split_name(b"x\\ignored")).is_some());
}

#[test]
fn duplicate_paths_collapse_to_the_first() {
    let vfs = Vfs::assemble(vec![entry("b", 1, 10, vec![]), entry("a", 2, 0, vec![]), entry("b", 3, 20, vec![])]).unwrap();
    assert_eq!(vfs.inodes.len(), 2);
    assert_eq!(vfs.get_node(2).unwrap().name(), b"a");
    let b = vfs.get_node(3).unwrap();
    assert_eq!(b.name(), b"b");
    assert_eq!(b.metadata().creation_time, 1);
}

#[test]
fn read_boundaries_and_directories() {
    let chunks = vec![
        ChunkRef { sha: vec![1], offset: 0, cb_original: 4 },
        ChunkRef { sha: vec![2], offset: 4, cb_original: 4 },
    ];
    let vfs = Vfs::assemble(vec![entry("d/f", 1, 8, chunks)]).unwrap();
    let f = vfs.resolve(&split_name(b"d/f")).unwrap();
    let d = vfs.resolve(&split_name(b"d")).unwrap();
    let payloads = vec![b"abcd".to_vec(), b"efgh".to_vec()];
    let mut buf = vec![0u8; 3];
    assert_eq!(read_data(vfs.get_node(f).unwrap(), 2, &mut buf, &payloads), Ok(3));
    assert_eq!(&buf, b"cde");
    let mut big = vec![0u8; 100];
    assert_eq!(read_data(vfs.get_node(f).unwrap(), 5, &mut big, &payloads), Ok(3));
    assert_eq!(&big[..3], b"fgh");
    assert_eq!(read_data(vfs.get_node(f).unwrap(), 8, &mut big, &payloads), Ok(0));
    assert_eq!(read_data(vfs.get_node(f).unwrap(), 9, &mut big, &payloads), Err(ReadError::InvalidParameter));
    assert_eq!(read_data(vfs.get_node(d).unwrap(), 0, &mut big, &payloads), Err(ReadError::InvalidParameter));
    let short = vec![b"ab".to_vec(), b"efgh".to_vec()];
    assert_eq!(read_data(vfs.get_node(f).unwrap(), 0, &mut big, &short), Err(ReadError::Io));
}

#[test]
fn open_of_a_synthetic_directory_is_legal() {
    let m = Manifest::read(&manifest_bytes(5, 1, false, &[("top/file", 0, 0, vec![])])).unwrap();
    let sku = StockKeepingUnit::read(sku_text(5, 0).as_bytes()).unwrap();
    let mut fs = BackupFs::prepare(&sku, vec![(5, m)], vec![]).unwrap();
    let top = fs.lookup(ROOT_INODE, b"top").unwrap();
    let h = fs.open(top);
    let node = fs.read_target(top, h).unwrap();
    let mut buf = vec![0u8; 4];
    assert_eq!(read_data(node, 0, &mut buf, &vec![]), Err(ReadError::InvalidParameter));
    let dh = fs.opendir(top);
    let list = fs.readdir(top, dh, 0).unwrap();
    assert_eq!(list.len(), 1);
    assert_eq!((list[0].offset, list[0].name.clone(), list[0].is_dir), (1, b"file".to_vec(), false));
    assert!(fs.readdir(top, dh, 1).unwrap().is_empty());
    assert_eq!(fs.readdir(top, dh + 1, 0).err(), Some(FsError::BadFileDescriptor));
    assert_eq!(fs.getattr(top, Some(dh)).map(|a| a.is_dir), Ok(true));
    assert_eq!(fs.getattr(ROOT_INODE, Some(dh)).err(), Some(FsError::BadFileDescriptor));
    assert_eq!(fs.releasedir(top, dh), Ok(()));
}

#[test]
fn encrypted_filenames_refuse_mount() {
    let m = Manifest::read(&manifest_bytes(7, 1, true, &[("x", 0, 0, vec![])])).unwrap();
    assert!(m.metadata.filenames_encrypted);
    assert_eq!(m.check_for_mount(7), Err(ManifestError::EncryptedFilenames));
    assert_eq!(m.check_for_mount(8), Err(ManifestError::DepotMismatch { found: 7 }));
    let sku = StockKeepingUnit::read(sku_text(7, 0).as_bytes()).unwrap();
    assert_eq!(
        BackupFs::prepare(&sku, vec![(7, m)], vec![]).err(),
        Some(PrepareError::Manifest { depot: 7, error: ManifestError::EncryptedFilenames })
    );
}

#[test]
fn manifest_with_bad_record_is_refused() {
    let e = ManifestEnvelope { payload: vec![0xFF, 0xFF, 0xFF], metadata: vec![], signature: vec![] };
    assert_eq!(Manifest::read(&e.write()).err(), Some(ManifestError::BadRecord));
    assert_eq!(Manifest::read(&[1, 2, 3]).err(), Some(ManifestError::Malformed));
}

#[test]
fn handle_table_wraps() {
    let mut t = HandleTable::new();
    assert_eq!(t.open(5), 0);
    t.next = u64::MAX;
    assert_eq!(t.open(6), u64::MAX);
    assert_eq!(t.next, 0);
    assert!(t.check(u64::MAX, 6));
    assert!(!t.check(u64::MAX, 5));
    assert!(!t.release(u64::MAX, 5));
    assert!(t.release(u64::MAX, 6));
    assert!(!t.check(u64::MAX, 6));
}

#[test]
fn windows_open_rules() {
    let m = Manifest::read(&manifest_bytes(5, 1, false, &[("top/file", 0, 0, vec![])])).unwrap();
    let sku = StockKeepingUnit::read(sku_text(5, 0).as_bytes()).unwrap();
    let fs = BackupFs::prepare(&sku, vec![(5, m)], vec![]).unwrap();
    let file = split_name(b"top\\file");
    assert_eq!(fs.create_file(&file, 0x2, FILE_OPEN, 0).err(), Some(CreateError::MediaWriteProtected));
    assert_eq!(fs.create_file(&file, 0x1, 2, 0).err(), Some(CreateError::InvalidParameter));
    assert_eq!(fs.create_file(&file, 0x1, FILE_OPEN, FILE_DIRECTORY_FILE).err(), Some(CreateError::NotADirectory));
    let (h, d) = fs.create_file(&file, 0x1, FILE_OPEN, FILE_NON_DIRECTORY_FILE).unwrap();
    assert!(!d);
    assert_eq!(fs.vfs.get_node(h.ino).unwrap().name(), b"file");
    assert_eq!(fs.create_file(&split_name(b"top"), 0x1, FILE_OPEN, FILE_NON_DIRECTORY_FILE).err(), Some(CreateError::FileIsADirectory));
    assert_eq!(fs.create_file(&split_name(b""), 0x1, FILE_OPEN, 0).unwrap().0.ino, ROOT_INODE);
    assert_eq!(fs.create_file(&split_name(b"nope"), 0x1, FILE_OPEN, 0).err(), Some(CreateError::NameNotFound));
}

#[test]
fn chunkstore_accounting() {
    let r = verify_chunkstore(100, 90, &vec![30, 30], &vec![true, true]);
    assert!(r.size_mismatch);
    assert!(!r.valid);
    assert_eq!(r.accounting, Accounting::Excess(40));
    let r = verify_chunkstore(50, 50, &vec![30, 30], &vec![true, true]);
    assert_eq!(r.accounting, Accounting::Duplicative);
    let s = depot_summary(Some(3), &vec![Some(1), Some(1)]);
    assert_eq!(s.chunks, 2);
    assert!(s.unique_mismatch);
}

#[test]
fn sequential_reads_skip_the_seek() {
    let csm = ChunkStoreManifest::read(&csm_bytes(1, &[(vec![1; 20], 0, 1, 10), (vec![2; 20], 10, 1, 5), (vec![3; 20], 40, 1, 5)])).unwrap();
    let mut s = ChunkStore::open(1, 1, csm, 45).unwrap();
    assert_eq!(s.begin_read(0).seek, None);
    assert_eq!(s.begin_read(1).seek, None);
    assert_eq!(s.begin_read(2).seek, Some(40));
    assert_eq!(s.begin_read(0).seek, Some(0));
    s.read_failed();
    assert_eq!(s.begin_read(0).seek, Some(0));
}

#[test]
fn only_touched_chunks_are_fetched() {
    let chunks = vec![
        ChunkRef { sha: vec![1], offset: 0, cb_original: 4 },
        ChunkRef { sha: vec![2], offset: 4, cb_original: 4 },
        ChunkRef { sha: vec![3], offset: 8, cb_original: 4 },
    ];
    let vfs = Vfs::assemble(vec![entry("f", 1, 12, chunks)]).unwrap();
    let f = vfs.get_node(2).unwrap();
    assert_eq!(chunks_to_fetch(f, 5, 2), vec![1]);
    assert_eq!(chunks_to_fetch(f, 3, 6), vec![0, 1, 2]);
    assert_eq!(chunks_to_fetch(f, 10, 100), vec![2]);
    assert!(chunks_to_fetch(f, 12, 100).is_empty());
    assert!(chunks_to_fetch(f, 13, 1).is_empty());
    assert!(chunks_to_fetch(f, 0, 0).is_empty());
}

#[test]
fn verify_reports_encrypted_names_and_foreign_manifests() {
    let m = Manifest::read(&manifest_bytes(7, 1, true, &[("x", 0, 0, vec![])])).unwrap();
    assert_eq!(m.check_for_verify(7), Ok(true));
    assert_eq!(m.check_for_verify(6), Err(ManifestError::DepotMismatch { found: 7 }));
}

#[test]
fn manifest_write_reads_back() {
    let bytes = manifest_bytes(42, 99, false, &[("x/y", 0x40, 0, vec![]), ("x/y/z", 0, 3, vec![(vec![5; 20], 0, 3)])]);
    let m = Manifest::read(&bytes).unwrap();
    let again = Manifest::read(&m.write().unwrap()).unwrap();
    assert_eq!(again.metadata, m.metadata);
    assert_eq!(again.signature, m.signature);
    assert_eq!(again.payload.len(), 2);
    assert_eq!(again.payload[1].filename, b"x/y/z".to_vec());
    assert_eq!(again.payload[1].chunks[0].sha, vec![5; 20]);
    assert_eq!(again.payload[0].flags, 0x40);
    let mut bad = m;
    bad.payload[0].filename = vec![0xff];
    assert!(bad.write().is_none());
}

#[test]
fn reads_at_the_end_and_errors_leave_the_buffer() {
    let chunks = vec![
        ChunkRef { sha: vec![1], offset: 0, cb_original: 4 },
        ChunkRef { sha: vec![2], offset: 4, cb_original: 2 },
    ];
    let vfs = Vfs::assemble(vec![entry("d/f", 1, 6, chunks)]).unwrap();
    let f = vfs.get_node(2).unwrap();
    let d = vfs.get_node(3).unwrap();
    let untouched = vec![Vec::new(), Vec::new()];
    let mut buf = vec![7u8; 8];
    assert_eq!(read_data(f, 6, &mut buf, &untouched), Ok(0));
    assert_eq!(buf, vec![7u8; 8]);
    assert_eq!(read_data(f, 7, &mut buf, &untouched), Err(ReadError::InvalidParameter));
    assert_eq!(read_data(d, 0, &mut buf, &untouched), Err(ReadError::InvalidParameter));
    assert_eq!(buf, vec![7u8; 8]);
    let second_only = vec![Vec::new(), b"ef".to_vec()];
    assert_eq!(read_data(f, 4, &mut buf, &second_only), Ok(2));
    assert_eq!(&buf[..2], b"ef");
    assert_eq!(read_data(f, 3, &mut buf, &second_only), Err(ReadError::Io));
}

#[test]
fn directories_follow_the_walk_and_borrow_metadata() {
    let vfs = Vfs::assemble(vec![entry("a/b/c.txt", 10, 0, vec![]), entry("a/x/y", 20, 0, vec![])]).unwrap();
    let names: Vec<Vec<u8>> = (2..=vfs.inodes.len() as u64 + 1).map(|i| vfs.get_node(i).unwrap().name().to_vec()).collect();
    assert_eq!(names, vec![b"c.txt".to_vec(), b"y".to_vec(), b"b".to_vec(), b"a".to_vec(), b"x".to_vec()]);
    let times: Vec<u32> = (4..=6).map(|i| vfs.get_node(i).unwrap().metadata().creation_time).collect();
    assert_eq!(times, vec![10, 10, 20]);
    assert_eq!(vfs.dir_map[0], vec![5]);
}

#[test]
fn getattr_with_a_handle() {
    let m = Manifest::read(&manifest_bytes(5, 1, false, &[("top/file", 0, 0, vec![])])).unwrap();
    let sku = StockKeepingUnit::read(sku_text(5, 0).as_bytes()).unwrap();
    let mut fs = BackupFs::prepare(&sku, vec![(5, m)], vec![]).unwrap();
    let file = fs.lookup(fs.lookup(ROOT_INODE, b"top").unwrap(), b"file").unwrap();
    let h = fs.open(file);
    assert_eq!(fs.files.next, h + 1);
    assert_eq!(fs.getattr(file, Some(h)).map(|a| a.ino), Ok(file));
    assert_eq!(fs.getattr(ROOT_INODE, Some(h)).err(), Some(FsError::BadFileDescriptor));
    assert_eq!(fs.getattr(99, None).err(), Some(FsError::NoEntry));
}
