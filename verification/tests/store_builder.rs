//! The store: hashing, compression, read-back; and the tree builder's
//! decisions, end to end on concrete directories.

use minigit::builder::{
    entry_mode, plan_tree_entry, store_blob, store_tree, tree_entry_names, BuildError, EntryPlan,
    WalkEntryKind,
};
use minigit::objects::{BlobObject, GitObject, TreeEntry};
use minigit::parse::ParseError;
use minigit::store::{decode_stored_object, plan_object_write, read_stored_bytes, ReadError, StoreError};

const HELLO_HASH: &str = "e965047ad7c57865823c7d992b1d046ea66edf78";

#[test]
fn hello_blob_end_to_end_hash() {
    let stored = store_blob(b"Hello\n".to_vec());
    assert_eq!(stored.hash, HELLO_HASH.as_bytes().to_vec());
    assert_eq!(stored.dir_name, b"e9".to_vec());
    assert_eq!(stored.file_name, HELLO_HASH[2..].as_bytes().to_vec());
}

#[test]
fn hello_blob_reads_back_exactly() {
    let stored = store_blob(b"Hello\n".to_vec());
    match decode_stored_object(&stored.zdata) {
        Ok(GitObject::Blob(b)) => assert_eq!(b.data, b"Hello\n".to_vec()),
        _ => panic!("expected the blob back"),
    }
}

#[test]
fn store_round_trip_arbitrary_payload() {
    let payload: Vec<u8> = (0..=255u8).collect();
    let packed = BlobObject { data: payload.clone() }.pack();
    let stored = plan_object_write(&packed);
    let raw = read_stored_bytes(&stored.zdata).expect("stream reads back");
    assert_eq!(raw, packed);
    match decode_stored_object(&stored.zdata) {
        Ok(GitObject::Blob(b)) => assert_eq!(b.data, payload),
        _ => panic!("expected the blob back"),
    }
}

#[test]
fn stored_stream_is_really_compressed_form() {
    let packed = BlobObject { data: b"hello\n".to_vec() }.pack();
    let stored = plan_object_write(&packed);
    assert_ne!(stored.zdata, packed);
    assert_eq!(read_stored_bytes(&stored.zdata).expect("stream reads back"), packed);
}

#[test]
fn store_is_deterministic() {
    let packed = BlobObject { data: b"same bytes".to_vec() }.pack();
    let first = plan_object_write(&packed);
    let second = plan_object_write(&packed);
    assert_eq!(first.hash, second.hash);
    assert_eq!(first.zdata, second.zdata);
}

#[test]
fn corrupt_stream_is_rejected() {
    assert!(matches!(
        read_stored_bytes(&b"not a zlib stream".to_vec()),
        Err(StoreError::CorruptObject)
    ));
    assert!(matches!(
        decode_stored_object(&b"not a zlib stream".to_vec()),
        Err(ReadError::Corrupt)
    ));
}

#[test]
fn stored_garbage_fails_to_parse() {
    let stored = plan_object_write(&b"blip 0\0".to_vec());
    assert!(matches!(
        decode_stored_object(&stored.zdata),
        Err(ReadError::Parse(ParseError::UnsupportedObjectType))
    ));
}

#[test]
fn mode_mapping() {
    assert_eq!(entry_mode(WalkEntryKind::File, true), 100755);
    assert_eq!(entry_mode(WalkEntryKind::File, false), 100644);
    assert_eq!(entry_mode(WalkEntryKind::Dir, false), 40000);
    assert_eq!(entry_mode(WalkEntryKind::Symlink, false), 120000);
}

#[test]
fn plan_tree_entry_decisions() {
    assert!(matches!(
        plan_tree_entry(WalkEntryKind::Dir, false, &b".git".to_vec()),
        Ok(EntryPlan::Skip)
    ));
    assert!(matches!(
        plan_tree_entry(WalkEntryKind::Dir, false, &b"src".to_vec()),
        Ok(EntryPlan::RecurseTree { mode: 40000 })
    ));
    // a file named like the metadata directory is still a file
    assert!(matches!(
        plan_tree_entry(WalkEntryKind::File, false, &b".git".to_vec()),
        Ok(EntryPlan::HashBlob { mode: 100644 })
    ));
    assert!(matches!(
        plan_tree_entry(WalkEntryKind::File, true, &b"run".to_vec()),
        Ok(EntryPlan::HashBlob { mode: 100755 })
    ));
    assert!(matches!(
        plan_tree_entry(WalkEntryKind::Symlink, false, &b"link".to_vec()),
        Err(BuildError::SymlinkUnimplemented)
    ));
    assert!(matches!(
        plan_tree_entry(WalkEntryKind::Other, false, &b"dev".to_vec()),
        Err(BuildError::UnsupportedEntryKind)
    ));
}

#[test]
fn write_tree_end_to_end() {
    // a directory holding a.txt ("x") and a subdirectory d with y.txt ("y")
    let blob_y = store_blob(b"y".to_vec());
    let (_, d_stored) = store_tree(vec![TreeEntry {
        mode: 100644,
        name: b"y.txt".to_vec(),
        sha: blob_y.hash.clone(),
    }]);

    let blob_x = store_blob(b"x".to_vec());
    let (root, root_stored) = store_tree(vec![
        TreeEntry { mode: 40000, name: b"d".to_vec(), sha: d_stored.hash.clone() },
        TreeEntry { mode: 100644, name: b"a.txt".to_vec(), sha: blob_x.hash.clone() },
    ]);

    let names = tree_entry_names(&root);
    assert_eq!(names, vec![b"a.txt".to_vec(), b"d".to_vec()]);

    // the listing read back from the store is the canonical one
    match decode_stored_object(&root_stored.zdata) {
        Ok(GitObject::Tree(t)) => {
            let names = tree_entry_names(&t);
            assert_eq!(names, vec![b"a.txt".to_vec(), b"d".to_vec()]);
            assert_eq!(t.entries[0].sha, blob_x.hash);
            assert_eq!(t.entries[1].sha, d_stored.hash);
        },
        _ => panic!("expected the tree back"),
    }
}

#[test]
fn same_entries_same_tree_hash() {
    let (_, s1) = store_tree(vec![
        TreeEntry { mode: 100644, name: b"b".to_vec(), sha: HELLO_HASH.as_bytes().to_vec() },
        TreeEntry { mode: 40000, name: b"a".to_vec(), sha: HELLO_HASH.as_bytes().to_vec() },
    ]);
    let (_, s2) = store_tree(vec![
        TreeEntry { mode: 40000, name: b"a".to_vec(), sha: HELLO_HASH.as_bytes().to_vec() },
        TreeEntry { mode: 100644, name: b"b".to_vec(), sha: HELLO_HASH.as_bytes().to_vec() },
    ]);
    assert_eq!(s1.hash, s2.hash);
    assert_eq!(s1.zdata, s2.zdata);
}
