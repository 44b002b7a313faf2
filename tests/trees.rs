use git_starter_rust::error::ObjectError;
use git_starter_rust::listing::TreeListing;
use git_starter_rust::snapshot::{is_root_marker, parse_tree_object, write_tree, DirNode};
use git_starter_rust::codec::ObjectKind;
use git_starter_rust::listing::subtree_to_read;
use git_starter_rust::store::{digest_to_hex, hash_blob, read_object};
use git_starter_rust::tree::{decode_tree, encode_tree, is_valid_name, EntryMode, TreeEntry};

fn entry(mode: EntryMode, name: &str, fill: u8) -> TreeEntry {
    TreeEntry { mode, name: name.as_bytes().to_vec(), digest: vec![fill; 20] }
}

#[test]
fn tree_encode_decode_round_trip() {
    let entries = vec![
        entry(EntryMode::File, "a.txt", 1),
        entry(EntryMode::Directory, "b", 0),
        entry(EntryMode::File, "with space", 10),
    ];
    let bytes = encode_tree(&entries);
    let back = decode_tree(&bytes).unwrap();
    assert_eq!(back.len(), 3);
    for (x, y) in entries.iter().zip(back.iter()) {
        assert_eq!(x.mode, y.mode);
        assert_eq!(x.name, y.name);
        assert_eq!(x.digest, y.digest);
    }
    assert_eq!(decode_tree(b"").unwrap().len(), 0);
}

#[test]
fn tree_entry_bytes() {
    let bytes = encode_tree(&vec![entry(EntryMode::Directory, "b", 7)]);
    let mut expected = b"040000 b\0".to_vec();
    expected.extend_from_slice(&[7u8; 20]);
    assert_eq!(bytes, expected);
}

#[test]
fn tree_decode_rejects_malformed() {
    let good = encode_tree(&vec![entry(EntryMode::File, "a", 1)]);
    let mut trailing = good.clone();
    trailing.push(0);
    assert!(matches!(decode_tree(&trailing), Err(ObjectError::Format)));
    assert!(matches!(decode_tree(&good[..good.len() - 1]), Err(ObjectError::Format)));
    let mut bad_mode = good.clone();
    bad_mode[0] = b'2';
    assert!(matches!(decode_tree(&bad_mode), Err(ObjectError::Format)));
    assert!(!is_valid_name(b"a/b"));
    assert!(!is_valid_name(b""));
    assert!(is_valid_name(b"a b"));
}

fn file(name: &str, content: &str) -> DirNode {
    DirNode::File { name: name.as_bytes().to_vec(), content: content.as_bytes().to_vec() }
}

fn dir(name: &str, children: Vec<DirNode>) -> DirNode {
    DirNode::Directory { name: name.as_bytes().to_vec(), children }
}

fn sample() -> Vec<DirNode> {
    vec![file("a.txt", "x"), dir("b", vec![file("c.txt", "y")])]
}

#[test]
fn snapshot_is_deterministic() {
    let first = write_tree(&sample());
    let second = write_tree(&sample());
    assert_eq!(first.digest, second.digest);
    assert_eq!(first.objects.len(), 4);
    for (x, y) in first.objects.iter().zip(second.objects.iter()) {
        assert_eq!(x.bytes, y.bytes);
    }
    assert_eq!(first.objects[0].digest, hash_blob(b"x").digest);
    assert_eq!(first.objects.last().unwrap().digest, first.digest);
    let changed = write_tree(&vec![file("a.txt", "x"), dir("b", vec![file("c.txt", "z")])]);
    assert_ne!(changed.digest, first.digest);
}

#[test]
fn snapshot_skips_metadata_directory() {
    let with_marker = write_tree(&vec![dir(".git", vec![file("HEAD", "ref")]), file("a.txt", "x")]);
    let without = write_tree(&vec![file("a.txt", "x")]);
    assert_eq!(with_marker.digest, without.digest);
    assert_eq!(with_marker.objects.len(), 2);
    assert!(is_root_marker(b".git"));
    assert!(!is_root_marker(b".gitignore"));
}

#[test]
fn snapshot_objects_in_build_order() {
    let built = write_tree(&sample());
    let kinds: Vec<ObjectKind> = built
        .objects
        .iter()
        .map(|o| read_object(&o.bytes).unwrap().0)
        .collect();
    assert_eq!(kinds, vec![ObjectKind::Blob, ObjectKind::Blob, ObjectKind::Tree, ObjectKind::Tree]);
    assert_eq!(built.objects[0].digest, hash_blob(b"x").digest);
    assert_eq!(built.objects[1].digest, hash_blob(b"y").digest);
    let inner = write_tree(&vec![file("c.txt", "y")]);
    assert_eq!(built.objects[2].digest, inner.digest);
    let mut root = b"100644 a.txt\0".to_vec();
    root.extend_from_slice(&hash_blob(b"x").digest);
    root.extend_from_slice(b"040000 b\0");
    root.extend_from_slice(&inner.digest);
    assert_eq!(read_object(&built.objects[3].bytes).unwrap().1, root);
}

#[test]
fn empty_directory_snapshot() {
    let built = write_tree(&vec![]);
    assert_eq!(built.objects.len(), 1);
    let hex = String::from_utf8(git_starter_rust::store::digest_to_hex(&built.digest)).unwrap();
    assert_eq!(hex, "4b825dc642cb6eb9a060e54bf8d69288fbee4904");
}

fn read_tree(objects: &[(Vec<u8>, Vec<u8>)], digest: &[u8]) -> Vec<TreeEntry> {
    let stored = &objects.iter().find(|(d, _)| d.as_slice() == digest).unwrap().1;
    parse_tree_object(stored).unwrap()
}

#[test]
fn nested_directory_lists_in_pre_order() {
    let built = write_tree(&sample());
    let objects: Vec<(Vec<u8>, Vec<u8>)> =
        built.objects.iter().map(|o| (o.digest.clone(), o.bytes.clone())).collect();
    let mut out = Vec::new();
    let mut listing = TreeListing::new(read_tree(&objects, &built.digest));
    while let Some((depth, e)) = listing.next() {
        out.push((depth, e.mode, String::from_utf8(e.name.clone()).unwrap()));
        if e.mode == EntryMode::Directory {
            listing.descend(depth + 1, read_tree(&objects, &e.digest));
        }
    }
    assert_eq!(
        out,
        vec![
            (0, EntryMode::File, "a.txt".to_string()),
            (0, EntryMode::Directory, "b".to_string()),
            (1, EntryMode::File, "c.txt".to_string()),
        ]
    );
}

#[test]
fn parse_tree_object_rejects_other_kinds() {
    let blob = hash_blob(b"040000 b\0");
    assert!(matches!(parse_tree_object(&blob.bytes), Err(ObjectError::Format)));
    assert!(matches!(parse_tree_object(b"garbage"), Err(ObjectError::Format)));
}

#[test]
fn listing_puts_subtrees_before_siblings() {
    let mut listing = TreeListing::new(vec![
        entry(EntryMode::Directory, "d", 1),
        entry(EntryMode::File, "z", 2),
    ]);
    let (d0, first) = listing.next().unwrap();
    assert_eq!((d0, first.name.as_slice()), (0, b"d".as_slice()));
    listing.descend(1, vec![entry(EntryMode::File, "inner1", 3), entry(EntryMode::File, "inner2", 4)]);
    let rest: Vec<(usize, Vec<u8>)> = std::iter::from_fn(|| listing.next()).map(|(d, e)| (d, e.name)).collect();
    assert_eq!(rest, vec![(1, b"inner1".to_vec()), (1, b"inner2".to_vec()), (0, b"z".to_vec())]);
    assert!(listing.next().is_none());
}

#[test]
fn subtree_to_read_only_for_directories() {
    let d = entry(EntryMode::Directory, "b", 0xab);
    assert_eq!(subtree_to_read(&d), Some(digest_to_hex(&[0xab; 20])));
    assert_eq!(&subtree_to_read(&d).unwrap()[..4], b"abab");
    assert_eq!(subtree_to_read(&entry(EntryMode::File, "a", 1)), None);
}
