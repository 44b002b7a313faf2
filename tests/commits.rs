use git_starter_rust::codec::ObjectKind;
use git_starter_rust::commit::{commit_content, commit_tree, parse_commit};
use git_starter_rust::error::ObjectError;
use git_starter_rust::history::{next_commit, HistoryWalk};
use git_starter_rust::store::{hash_object, read_object};

const TREE: &[u8] = b"4b825dc642cb6eb9a060e54bf8d69288fbee4904";
const IDENT: &[u8] = b"Ann Author <ann@example.com>";

#[test]
fn commit_text_layout() {
    let parent: &[u8] = b"ce013625030ba8dba906f756967f9e9ca394464a";
    let text = commit_content(TREE, Some(parent), IDENT, 1700000000, b"+0000", b"first\n").unwrap();
    let expected = "tree 4b825dc642cb6eb9a060e54bf8d69288fbee4904\n\
parent ce013625030ba8dba906f756967f9e9ca394464a\n\
author Ann Author <ann@example.com> 1700000000 +0000\n\
committer Ann Author <ann@example.com> 1700000000 +0000\n\
\n\
first\n";
    assert_eq!(String::from_utf8(text).unwrap(), expected);
}

#[test]
fn commit_rejects_bad_digests() {
    assert!(matches!(
        commit_content(b"abc", None, IDENT, 1, b"+0000", b"m"),
        Err(ObjectError::InvalidDigest)
    ));
    assert!(matches!(
        commit_tree(TREE, Some(b"xyz"), IDENT, 1, b"+0000", b"m"),
        Err(ObjectError::InvalidDigest)
    ));
}

#[test]
fn commit_object_reads_back() {
    let o = commit_tree(TREE, None, IDENT, 5, b"+0100", b"msg").unwrap();
    let (kind, content) = read_object(&o.bytes).unwrap();
    assert_eq!(kind, ObjectKind::Commit);
    let rec = parse_commit(&content).unwrap();
    assert_eq!(rec.tree, TREE.to_vec());
    assert_eq!(rec.parent, None);
    assert_eq!(rec.author, b"author Ann Author <ann@example.com> 5 +0100".to_vec());
    assert_eq!(rec.committer, b"committer Ann Author <ann@example.com> 5 +0100".to_vec());
    assert_eq!(rec.message, b"msg".to_vec());
}

#[test]
fn parse_commit_rejects_malformed() {
    assert!(matches!(parse_commit(b"tree abc\n"), Err(ObjectError::Format)));
    let no_blank = commit_content(TREE, None, IDENT, 5, b"+0000", b"").unwrap();
    assert!(parse_commit(&no_blank).is_ok());
    assert!(matches!(parse_commit(&no_blank[..no_blank.len() - 1]), Err(ObjectError::Format)));
}

#[test]
fn history_walks_a_chain_of_three() {
    let mut store: Vec<(Vec<u8>, Vec<u8>)> = Vec::new();
    let mut parent: Option<Vec<u8>> = None;
    for i in 0..3u64 {
        let o = commit_tree(TREE, parent.as_deref(), IDENT, i, b"+0000", format!("c{}", i).as_bytes())
            .unwrap();
        store.push((o.hex.clone(), o.bytes.clone()));
        parent = Some(o.hex.clone());
    }
    let mut walk = HistoryWalk::new();
    let mut next = parent;
    let mut messages = Vec::new();
    while let Some(d) = next {
        let stored = &store.iter().find(|(h, _)| *h == d).unwrap().1;
        let rec = walk.step(&d, stored).unwrap();
        messages.push(String::from_utf8(rec.message.clone()).unwrap());
        next = next_commit(&rec);
        assert_eq!(next, rec.parent);
    }
    assert_eq!(messages, vec!["c2", "c1", "c0"]);
    assert_eq!(walk.visited.len(), 3);
}

#[test]
fn history_stops_on_a_cycle() {
    let o = commit_tree(TREE, Some(TREE), IDENT, 0, b"+0000", b"loop").unwrap();
    let mut walk = HistoryWalk::new();
    // A commit that names itself as parent.
    assert!(matches!(walk.step(TREE, &o.bytes), Err(ObjectError::Format)));
    assert_eq!(walk.visited.len(), 0);
    let blob = hash_object(ObjectKind::Blob, b"not a commit");
    assert!(matches!(walk.step(&blob.hex, &blob.bytes), Err(ObjectError::Format)));
}

#[test]
fn commit_rejects_newline_in_signature() {
    assert!(matches!(
        commit_content(TREE, None, b"Ann\nparent x", 1, b"+0000", b"m"),
        Err(ObjectError::Format)
    ));
    assert!(matches!(
        commit_tree(TREE, None, IDENT, 1, b"+00\n00", b"m"),
        Err(ObjectError::Format)
    ));
    assert!(matches!(
        commit_content(b"short", None, b"Ann\n", 1, b"+0000", b"m"),
        Err(ObjectError::InvalidDigest)
    ));
}
