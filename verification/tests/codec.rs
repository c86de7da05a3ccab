//! The codec: packing each object kind, canonical entry order, and the
//! parser's reading of packed bytes.

use minigit::objects::{BlobObject, CommitObject, GitObject, TreeEntry, TreeObject};
use minigit::parse::{parse_object, ParseError};

fn entry(mode: u32, name: &str, sha: &str) -> TreeEntry {
    TreeEntry { mode, name: name.as_bytes().to_vec(), sha: sha.as_bytes().to_vec() }
}

const SHA_A: &str = "aaaaaaaaaaaaaaaaaaaaaaaaaaaaaaaaaaaaaaaa";
const SHA_B: &str = "bbbbbbbbbbbbbbbbbbbbbbbbbbbbbbbbbbbbbbbb";
const SHA_C: &str = "0123456789abcdef0123456789abcdef01234567";

#[test]
fn blob_pack_exact_bytes() {
    let blob = BlobObject { data: b"hello\n".to_vec() };
    assert_eq!(blob.pack(), b"blob 6\0hello\n".to_vec());
}

#[test]
fn blob_pack_empty() {
    let blob = BlobObject { data: Vec::new() };
    assert_eq!(blob.pack(), b"blob 0\0".to_vec());
}

#[test]
fn entry_pack_decodes_hex() {
    let e = entry(100644, "a.txt", SHA_C);
    let mut expected = b"100644 a.txt\0".to_vec();
    expected.extend_from_slice(&[
        0x01, 0x23, 0x45, 0x67, 0x89, 0xab, 0xcd, 0xef, 0x01, 0x23, 0x45, 0x67, 0x89, 0xab,
        0xcd, 0xef, 0x01, 0x23, 0x45, 0x67,
    ]);
    assert_eq!(e.pack(), expected);
}

#[test]
fn tree_pack_sorts_directory_with_suffix() {
    // Names b, a.txt and a, where a is a directory: the directory's key is
    // "a/", so the canonical order is a.txt, a, b.
    let mut tree = TreeObject {
        entries: vec![
            entry(100644, "b", SHA_B),
            entry(100644, "a.txt", SHA_A),
            entry(40000, "a", SHA_C),
        ],
    };
    tree.pack();
    let names: Vec<Vec<u8>> = tree.entries.iter().map(|e| e.name.clone()).collect();
    assert_eq!(names, vec![b"a.txt".to_vec(), b"a".to_vec(), b"b".to_vec()]);
}

#[test]
fn tree_pack_deterministic_across_orders() {
    let mut t1 = TreeObject {
        entries: vec![
            entry(100644, "b", SHA_B),
            entry(100644, "a.txt", SHA_A),
            entry(40000, "a", SHA_C),
        ],
    };
    let mut t2 = TreeObject {
        entries: vec![
            entry(40000, "a", SHA_C),
            entry(100644, "b", SHA_B),
            entry(100644, "a.txt", SHA_A),
        ],
    };
    assert_eq!(t1.pack(), t2.pack());
}

#[test]
fn tree_pack_wraps_entry_section() {
    let mut tree = TreeObject { entries: vec![entry(100644, "x", SHA_A)] };
    let packed = tree.pack();
    // entry: "100644 x\0" (9 bytes) + 20 raw bytes = 29
    assert!(packed.starts_with(b"tree 29\0100644 x\0"));
    assert_eq!(packed.len(), "tree 29\0".len() + 29);
}

#[test]
fn tree_pack_empty() {
    let mut tree = TreeObject { entries: Vec::new() };
    assert_eq!(tree.pack(), b"tree 0\0".to_vec());
}

#[test]
fn commit_pack_exact_bytes() {
    let commit = CommitObject {
        tree_hash: SHA_A.as_bytes().to_vec(),
        parents: vec![SHA_B.as_bytes().to_vec()],
        author_name: b"A".to_vec(),
        author_email: b"a@b".to_vec(),
        author_date_seconds: 5,
        author_date_timezone: b"+0000".to_vec(),
        committer_name: b"C".to_vec(),
        committer_email: b"c@d".to_vec(),
        committer_date_seconds: 7,
        committer_date_timezone: b"+0100".to_vec(),
        commit_message: b"hi".to_vec(),
    };
    let body = format!(
        "tree {}\nparent {}\nauthor A a@b 5 +0000\ncommitter C c@d 7 +0100\n\nhi\n",
        SHA_A, SHA_B
    );
    let expected = format!("commit {}\0{}", body.len(), body);
    assert_eq!(commit.pack(), expected.into_bytes());
}

#[test]
fn commit_pack_no_parents() {
    let commit = CommitObject {
        tree_hash: SHA_A.as_bytes().to_vec(),
        parents: Vec::new(),
        author_name: b"A".to_vec(),
        author_email: b"a@b".to_vec(),
        author_date_seconds: 1700000000,
        author_date_timezone: b"+0000".to_vec(),
        committer_name: b"A".to_vec(),
        committer_email: b"a@b".to_vec(),
        committer_date_seconds: 1700000000,
        committer_date_timezone: b"+0000".to_vec(),
        commit_message: b"first".to_vec(),
    };
    let body = format!(
        "tree {}\nauthor A a@b 1700000000 +0000\ncommitter A a@b 1700000000 +0000\n\nfirst\n",
        SHA_A
    );
    let expected = format!("commit {}\0{}", body.len(), body);
    assert_eq!(commit.pack(), expected.into_bytes());
}

#[test]
fn parse_blob_round_trip() {
    let payload: Vec<u8> = vec![0, 159, 146, 150, 10, 255, 65];
    let blob = BlobObject { data: payload.clone() };
    let packed = blob.pack();
    match parse_object(&packed) {
        Ok(GitObject::Blob(b)) => assert_eq!(b.data, payload),
        _ => panic!("expected a blob"),
    }
}

#[test]
fn parse_tree_round_trip() {
    let mut tree = TreeObject {
        entries: vec![
            entry(100644, "b", SHA_B),
            entry(40000, "a", SHA_C),
            entry(100755, "run me", SHA_A),
        ],
    };
    let packed = tree.pack();
    match parse_object(&packed) {
        Ok(GitObject::Tree(t)) => {
            assert_eq!(t.entries.len(), 3);
            let got: Vec<(u32, Vec<u8>, Vec<u8>)> =
                t.entries.iter().map(|e| (e.mode, e.name.clone(), e.sha.clone())).collect();
            let want: Vec<(u32, Vec<u8>, Vec<u8>)> = tree
                .entries
                .iter()
                .map(|e| (e.mode, e.name.clone(), e.sha.clone()))
                .collect();
            assert_eq!(got, want);
        },
        _ => panic!("expected a tree"),
    }
}

#[test]
fn parse_blob_size_mismatch_short() {
    assert!(matches!(parse_object(&b"blob 5\0abc".to_vec()), Err(ParseError::SizeMismatch)));
}

#[test]
fn parse_blob_size_mismatch_long() {
    assert!(matches!(parse_object(&b"blob 2\0abc".to_vec()), Err(ParseError::SizeMismatch)));
}

#[test]
fn parse_blob_empty_and_leading_zeros() {
    match parse_object(&b"blob 0\0".to_vec()) {
        Ok(GitObject::Blob(b)) => assert!(b.data.is_empty()),
        _ => panic!("expected a blob"),
    }
    match parse_object(&b"blob 003\0xyz".to_vec()) {
        Ok(GitObject::Blob(b)) => assert_eq!(b.data, b"xyz".to_vec()),
        _ => panic!("expected a blob"),
    }
}

#[test]
fn parse_unknown_type_rejected() {
    assert!(matches!(parse_object(&b"blip 0\0".to_vec()), Err(ParseError::UnsupportedObjectType)));
    assert!(matches!(parse_object(&b"blobs 0\0".to_vec()), Err(ParseError::UnsupportedObjectType)));
    assert!(matches!(parse_object(&b"no-space-here".to_vec()), Err(ParseError::UnsupportedObjectType)));
}

#[test]
fn parse_malformed_header_rejected() {
    assert!(matches!(parse_object(&b"blob x\0abc".to_vec()), Err(ParseError::MalformedHeader)));
    assert!(matches!(parse_object(&b"blob \0abc".to_vec()), Err(ParseError::MalformedHeader)));
    assert!(matches!(parse_object(&b"blob 12".to_vec()), Err(ParseError::MalformedHeader)));
}

#[test]
fn parse_truncated_tree_rejected() {
    // declared size is not the section's length
    assert!(matches!(parse_object(&b"tree 5\0ab".to_vec()), Err(ParseError::TruncatedTree)));
    // section is not whole entries: no space ends a mode token
    assert!(matches!(parse_object(&b"tree 3\0abc".to_vec()), Err(ParseError::TruncatedTree)));
    // an entry whose name never ends
    let garbage = b"tree 10\0100644 abc".to_vec();
    assert!(matches!(parse_object(&garbage), Err(ParseError::TruncatedTree)));
}

#[test]
fn parse_keeps_on_disk_order() {
    // the reader does not re-sort: entries come back as stored
    let mut bytes = b"tree 58\0".to_vec();
    bytes.extend_from_slice(b"100644 b\0");
    bytes.extend_from_slice(&[0xbb; 20]);
    bytes.extend_from_slice(b"100644 a\0");
    bytes.extend_from_slice(&[0xaa; 20]);
    match parse_object(&bytes) {
        Ok(GitObject::Tree(t)) => {
            let names: Vec<Vec<u8>> = t.entries.iter().map(|e| e.name.clone()).collect();
            assert_eq!(names, vec![b"b".to_vec(), b"a".to_vec()]);
        },
        _ => panic!("expected a tree"),
    }
}

#[test]
fn parse_entry_mode_out_of_range() {
    // an entry whose mode does not fit 32 bits
    let mut bytes = b"tree 34\0".to_vec();
    bytes.extend_from_slice(b"99999999999 x\0");
    bytes.extend_from_slice(&[0xcc; 20]);
    assert!(matches!(parse_object(&bytes), Err(ParseError::MalformedHeader)));
}

#[test]
fn parse_commit_not_implemented() {
    let commit = CommitObject {
        tree_hash: SHA_A.as_bytes().to_vec(),
        parents: Vec::new(),
        author_name: b"A".to_vec(),
        author_email: b"a@b".to_vec(),
        author_date_seconds: 0,
        author_date_timezone: b"+0000".to_vec(),
        committer_name: b"A".to_vec(),
        committer_email: b"a@b".to_vec(),
        committer_date_seconds: 0,
        committer_date_timezone: b"+0000".to_vec(),
        commit_message: b"m".to_vec(),
    };
    let packed = commit.pack();
    assert!(matches!(parse_object(&packed), Err(ParseError::NotImplemented)));
}
