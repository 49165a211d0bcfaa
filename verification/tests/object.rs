use treblo::digest::{hash_object, HashAlgo, HashWriter, Hasher};
use treblo::hex::{from_hex_string, to_hex_string};
use treblo::object::{
    blob_from_bytes, link_target_bytes, object_header, tree_from_entries, FileMode, TreeEntry,
};

#[test]
fn object_header_writes_type_space_size_nul() {
    let mut buf: Vec<u8> = Vec::new();
    let tag: Vec<u8> = b"blob".to_vec();
    let n = object_header(&mut buf, tag.as_slice(), 0);
    assert_eq!(buf, b"blob 0\x00".to_vec());
    assert_eq!(n, 7);
    let mut buf2: Vec<u8> = Vec::new();
    let n2 = object_header(&mut buf2, tag.as_slice(), 1234);
    assert_eq!(buf2, b"blob 1234\x00".to_vec());
    assert_eq!(n2, 10);
}

#[test]
fn blob_framing_matches_git() {
    let mut buf: Vec<u8> = Vec::new();
    let n = blob_from_bytes(&mut buf, b"hello world\n");
    assert_eq!(buf, b"blob 12\x00hello world\n".to_vec());
    assert_eq!(n, buf.len());
}

#[test]
fn blob_digest_golden_vectors() {
    let mut empty: Vec<u8> = Vec::new();
    blob_from_bytes(&mut empty, b"");
    let d = hash_object(HashAlgo::Sha1, empty.as_slice());
    assert_eq!(to_hex_string(d.as_slice()), "e69de29bb2d1d6434b8b29ae775ad8c2e48c5391");

    let mut hello: Vec<u8> = Vec::new();
    blob_from_bytes(&mut hello, b"hello world\n");
    let d = hash_object(HashAlgo::Sha1, hello.as_slice());
    assert_eq!(to_hex_string(d.as_slice()), "3b18e512dba79e4c8300dd08aeb37f8e728b8dad");
}

#[test]
fn sha256_blob_digest_golden_vectors() {
    let mut empty: Vec<u8> = Vec::new();
    blob_from_bytes(&mut empty, b"");
    let d = hash_object(HashAlgo::Sha256, empty.as_slice());
    assert_eq!(d.len(), 32);
    assert_eq!(
        to_hex_string(d.as_slice()),
        "473a0f4c3be8a93681a267e3b1e9a7dcda1185436fe141f7749120a303721813"
    );
}

#[test]
fn xxh64_digest_endianness() {
    let be = hash_object(HashAlgo::Xxh64 { little_endian: false }, b"hello world\n");
    let le = hash_object(HashAlgo::Xxh64 { little_endian: true }, b"hello world\n");
    assert_eq!(be.len(), 8);
    assert_eq!(le.len(), 8);
    let mut rev = be.clone();
    rev.reverse();
    assert_eq!(rev, le);
    let other = hash_object(HashAlgo::Xxh64 { little_endian: false }, b"hello world?");
    assert_ne!(be, other);
}

#[test]
fn hash_writer_streams_like_one_shot() {
    let mut buf: Vec<u8> = Vec::new();
    blob_from_bytes(&mut buf, b"hello world\n");
    let mut h = HashWriter::new(HashAlgo::Sha1);
    h.write(&buf[..7]);
    h.write(&buf[7..]);
    let d = h.result_vec();
    assert_eq!(to_hex_string(d.as_slice()), "3b18e512dba79e4c8300dd08aeb37f8e728b8dad");
}

#[test]
fn tree_serialization_matches_git() {
    let digest = from_hex_string("e440e5c842586965a7fb77deda2eca68612b1f53").unwrap();
    let entry = TreeEntry::new(FileMode::regular(), "z".to_string(), digest.clone());
    let mut buf: Vec<u8> = Vec::new();
    let entries = vec![entry];
    tree_from_entries(&mut buf, &entries);
    let mut expected: Vec<u8> = b"tree 29\x00100644 z\x00".to_vec();
    expected.extend_from_slice(digest.as_slice());
    assert_eq!(buf, expected);
    let d = hash_object(HashAlgo::Sha1, buf.as_slice());
    assert_eq!(to_hex_string(d.as_slice()), "9c6c33f1a899f15f0708ab07d8a6c1a993f6103b");
}

#[test]
fn file_mode_precedence_and_codes() {
    assert_eq!(FileMode::from_parts(true, true, true).as_i32(), 0o40000);
    assert_eq!(FileMode::from_parts(false, true, true).as_i32(), 0o120000);
    assert_eq!(FileMode::from_parts(false, false, true).as_i32(), 0o100755);
    assert_eq!(FileMode::from_parts(false, false, false).as_i32(), 0o100644);
    assert!(FileMode::from_parts(true, false, false).is_dir());
    assert!(!FileMode::regular().is_dir());
    assert_eq!(FileMode::dir().as_i32(), 0o40000);
    assert_eq!(FileMode::symlink().as_i32(), 0o120000);
    assert_eq!(FileMode::executable().as_i32(), 0o100755);
}

#[test]
fn link_target_joins_components() {
    let parts = vec!["..".to_string(), "lib".to_string(), "t.txt".to_string()];
    assert_eq!(link_target_bytes(&parts), b"../lib/t.txt".to_vec());
    let one = vec!["t".to_string()];
    assert_eq!(link_target_bytes(&one), b"t".to_vec());
    let none: Vec<String> = Vec::new();
    assert_eq!(link_target_bytes(&none), Vec::<u8>::new());
}
