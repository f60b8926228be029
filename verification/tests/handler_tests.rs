//! Inode registry and operation logic, exercised on concrete values.

use ciphermount::crypto::decrypt;
use ciphermount::fuse::{join_path, CipherFS, DirEntryIn, FsError};

fn fresh_fs() -> CipherFS {
    CipherFS::new(b"/backing".to_vec(), [0x42u8; 32])
}

#[test]
fn register_is_idempotent() {
    let mut fs = fresh_fs();
    let ino1 = fs.register(b"/backing/a".to_vec());
    let ino2 = fs.register(b"/backing/a".to_vec());
    assert_eq!(ino1, ino2);
    assert_eq!(ino1, 2);
    assert_eq!(fs.path_for(ino1), Some(b"/backing/a".to_vec()));
}

#[test]
fn lookup_stability() {
    // lookup(root, "a") twice returns the same inode number.
    let mut fs = fresh_fs();
    let root = fs.path_for(1).unwrap();
    let child = join_path(&root, &b"a".to_vec());
    let first = fs.register(child.clone());
    let second = fs.register(child);
    assert_eq!(first, second);
}

#[test]
fn distinct_paths_get_distinct_inos() {
    let mut fs = fresh_fs();
    let a = fs.register(b"/backing/a".to_vec());
    let b = fs.register(b"/backing/b".to_vec());
    assert_ne!(a, b);
    assert_eq!(fs.path_for(a), Some(b"/backing/a".to_vec()));
    assert_eq!(fs.path_for(b), Some(b"/backing/b".to_vec()));
}

#[test]
fn root_is_ino_one() {
    let fs = fresh_fs();
    assert_eq!(fs.path_for(1), Some(b"/backing".to_vec()));
    assert_eq!(fs.path_for(2), None);
}

#[test]
fn alloc_ino_counts_up() {
    let mut fs = fresh_fs();
    assert_eq!(fs.alloc_ino(), 2);
    assert_eq!(fs.alloc_ino(), 3);
}

#[test]
fn open_known_and_unknown() {
    let mut fs = fresh_fs();
    assert_eq!(fs.open(1), Ok(0));
    assert_eq!(fs.open(7), Err(FsError::NotFound));
    let ino = fs.register(b"/backing/f".to_vec());
    assert_eq!(fs.open(ino), Ok(0));
}

#[test]
fn join_path_inserts_separator() {
    assert_eq!(join_path(&b"/src".to_vec(), &b"a".to_vec()), b"/src/a".to_vec());
    assert_eq!(join_path(&b"/src/".to_vec(), &b"a".to_vec()), b"/src/a".to_vec());
}

#[test]
fn write_through_read_back() {
    // Fresh file: write "abc" at offset 0, read [0..3) back, and the backing
    // blob is 3 + 28 bytes whose decryption is exactly "abc".
    let fs = fresh_fs();
    let blob = fs.write(&[], 0, b"abc").unwrap();
    assert_eq!(blob.len(), 31);
    assert_eq!(decrypt(&[0x42u8; 32], &blob), Ok(b"abc".to_vec()));
    assert_eq!(fs.read(&blob, 0, 3), Ok(b"abc".to_vec()));
}

#[test]
fn hole_fill_with_zero_bytes() {
    // Write "xyz" at offset 5 into a fresh file; [0..8) reads back as five
    // zero bytes then "xyz".
    let fs = fresh_fs();
    let blob = fs.write(&[], 5, b"xyz").unwrap();
    assert_eq!(fs.read(&blob, 0, 8), Ok(b"\x00\x00\x00\x00\x00xyz".to_vec()));
}

#[test]
fn overwrite_start_of_file() {
    // "hello" then "J" at offset 0 reads back "Jello".
    let fs = fresh_fs();
    let blob1 = fs.write(&[], 0, b"hello").unwrap();
    let blob2 = fs.write(&blob1, 0, b"J").unwrap();
    assert_eq!(fs.read(&blob2, 0, 5), Ok(b"Jello".to_vec()));
}

#[test]
fn every_write_gives_plaintext_plus_28() {
    let fs = fresh_fs();
    let blob1 = fs.write(&[], 0, b"0123456789").unwrap();
    assert_eq!(blob1.len(), 10 + 28);
    let blob2 = fs.write(&blob1, 4, b"abcdefgh").unwrap();
    assert_eq!(blob2.len(), 12 + 28);
}

#[test]
fn read_of_short_backing_file_is_blank() {
    let fs = fresh_fs();
    assert_eq!(fs.read(&[], 0, 16), Ok(Vec::new()));
    assert_eq!(fs.read(&[0u8; 27], 0, 16), Ok(Vec::new()));
}

#[test]
fn read_of_garbage_is_io_error() {
    let fs = fresh_fs();
    assert_eq!(fs.read(&[0u8; 40], 0, 16), Err(FsError::IoFailed));
}

#[test]
fn read_clips_to_plaintext() {
    let fs = fresh_fs();
    let blob = fs.write(&[], 0, b"abcdef").unwrap();
    assert_eq!(fs.read(&blob, 2, 2), Ok(b"cd".to_vec()));
    assert_eq!(fs.read(&blob, 4, 100), Ok(b"ef".to_vec()));
    assert_eq!(fs.read(&blob, 6, 4), Ok(Vec::new()));
    assert_eq!(fs.read(&blob, 99, 4), Ok(Vec::new()));
}

#[test]
fn readdir_synthesizes_dot_entries_and_registers_children() {
    let mut fs = fresh_fs();
    let children = vec![
        DirEntryIn { name: b"a".to_vec(), is_dir: false },
        DirEntryIn { name: b"sub".to_vec(), is_dir: true },
    ];
    let rows = fs.readdir(1, &children, 0).unwrap();
    assert_eq!(rows.len(), 4);
    assert_eq!(rows[0].name, b".".to_vec());
    assert_eq!(rows[0].ino, 1);
    assert_eq!(rows[0].cursor, 1);
    assert!(rows[0].is_dir);
    assert_eq!(rows[1].name, b"..".to_vec());
    assert_eq!(rows[1].cursor, 2);
    assert_eq!(rows[2].name, b"a".to_vec());
    assert_eq!(rows[2].cursor, 3);
    assert!(!rows[2].is_dir);
    assert_eq!(rows[3].name, b"sub".to_vec());
    assert_eq!(rows[3].cursor, 4);
    assert!(rows[3].is_dir);
    assert_eq!(fs.path_for(rows[2].ino), Some(b"/backing/a".to_vec()));
    assert_eq!(fs.path_for(rows[3].ino), Some(b"/backing/sub".to_vec()));
}

#[test]
fn readdir_resumes_at_offset_with_stable_inos() {
    let mut fs = fresh_fs();
    let children = vec![
        DirEntryIn { name: b"a".to_vec(), is_dir: false },
        DirEntryIn { name: b"b".to_vec(), is_dir: false },
    ];
    let full = fs.readdir(1, &children, 0).unwrap();
    let resumed = fs.readdir(1, &children, 3).unwrap();
    assert_eq!(resumed.len(), 1);
    assert_eq!(resumed[0].name, b"b".to_vec());
    assert_eq!(resumed[0].cursor, 4);
    // A second enumeration hands out the same inode numbers.
    assert_eq!(resumed[0].ino, full[3].ino);
}

#[test]
fn readdir_of_unknown_ino_is_not_found() {
    let mut fs = fresh_fs();
    let no_children: Vec<DirEntryIn> = Vec::new();
    assert!(matches!(fs.readdir(9, &no_children, 0), Err(FsError::NotFound)));
}

#[test]
fn meta_to_attr_fixes_derived_fields() {
    let attr = CipherFS::meta_to_attr(5, false, 1234, 8, 100, 7, 200, 9, 0o644, 1, 1000, 1000, 0);
    assert_eq!(attr.ino, 5);
    assert_eq!(attr.size, 1234);
    assert_eq!(attr.mtime_secs, 200);
    assert_eq!(attr.ctime_secs, 200);
    assert_eq!(attr.ctime_nanos, 9);
    assert_eq!(attr.crtime_secs, 0);
    assert_eq!(attr.blksize, 512);
    assert_eq!(attr.flags, 0);
    assert!(!attr.is_dir);
}
