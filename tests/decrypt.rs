use base64::Engine;
use steam_backup::manifest::{check_plaintext, decrypt_string, join_lines, DecryptError, FileMapping, Manifest, ManifestMetadata};

fn encrypt_name(name: &str, key: &[u8; 32]) -> Vec<u8> {
    let ct = steam_vent_crypto::symmetric_encrypt(name.as_bytes().into(), key).to_vec();
    base64::engine::general_purpose::STANDARD.encode(ct).into_bytes()
}

fn metadata(encrypted: bool) -> ManifestMetadata {
    ManifestMetadata {
        depot_id: 1,
        gid_manifest: 2,
        creation_time: 3,
        filenames_encrypted: encrypted,
        cb_disk_original: 0,
        cb_disk_compressed: 0,
        unique_chunks: 0,
        crc_encrypted: 0,
        crc_clear: 0,
    }
}

fn mapping(name: Vec<u8>, link: Option<Vec<u8>>) -> FileMapping {
    FileMapping { filename: name, flags: 0x100, size: 5, linktarget: link, sha_filename: vec![1; 20], chunks: vec![] }
}

#[test]
fn join_lines_drops_line_endings() {
    assert_eq!(join_lines(b"ab\ncd\r\nef\n"), b"abcdef".to_vec());
    assert_eq!(join_lines(b"a\rb"), b"a\rb".to_vec());
    assert_eq!(join_lines(b""), Vec::<u8>::new());
}

#[test]
fn decrypt_string_round_trips_through_the_cipher() {
    let key = [7u8; 32];
    let mut enc = encrypt_name("dir/a.txt", &key);
    enc.insert(10, b'\n');
    assert_eq!(decrypt_string(&enc, &key), Ok(b"dir/a.txt".to_vec()));
}

#[test]
fn decrypt_string_errors() {
    let key = [7u8; 32];
    assert_eq!(decrypt_string(b"not base64!", &key), Err(DecryptError::Base64));
    let short = base64::engine::general_purpose::STANDARD.encode([1u8; 8]).into_bytes();
    assert_eq!(decrypt_string(&short, &key), Err(DecryptError::Cipher));
    assert_eq!(check_plaintext(vec![0xff, 0xfe]), Err(DecryptError::Utf8));
    assert_eq!(check_plaintext(b"ok".to_vec()), Ok(b"ok".to_vec()));
}

#[test]
fn decrypt_filenames_clears_the_flag() {
    let key = [3u8; 32];
    let mut m = Manifest {
        payload: vec![mapping(encrypt_name("a/b", &key), Some(encrypt_name("c", &key))), mapping(encrypt_name("d", &key), None)],
        metadata: metadata(true),
        signature: vec![],
    };
    assert_eq!(m.decrypt_filenames(&key), Ok(()));
    assert!(!m.metadata.filenames_encrypted);
    assert_eq!(m.payload[0].filename, b"a/b".to_vec());
    assert_eq!(m.payload[0].linktarget, Some(b"c".to_vec()));
    assert_eq!(m.payload[1].filename, b"d".to_vec());
    assert_eq!((m.payload[1].flags, m.payload[1].size), (0x100, 5));
}

#[test]
fn decrypt_filenames_leaves_clear_names_and_failed_mappings() {
    let key = [3u8; 32];
    let mut clear = Manifest { payload: vec![mapping(b"plain".to_vec(), None)], metadata: metadata(false), signature: vec![] };
    assert_eq!(clear.decrypt_filenames(&key), Ok(()));
    assert_eq!(clear.payload[0].filename, b"plain".to_vec());
    let mut bad = Manifest { payload: vec![mapping(b"@@@".to_vec(), None)], metadata: metadata(true), signature: vec![] };
    assert_eq!(bad.decrypt_filenames(&key), Err(DecryptError::Base64));
    assert_eq!(bad.payload[0].filename, b"@@@".to_vec());
    assert!(bad.metadata.filenames_encrypted);
}
