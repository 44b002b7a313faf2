use git_starter_rust::codec::{encode_decimal, frame, unframe, ObjectKind};
use git_starter_rust::error::ObjectError;
use git_starter_rust::store::{
    cat_file, digest_to_hex, hash_blob, hash_object, is_valid_digest, object_location, read_object,
    CatQuery,
};

#[test]
fn blob_hello_digest() {
    let o = hash_blob(b"hello\n");
    let hex = String::from_utf8(o.hex.clone()).unwrap();
    assert!(hex.starts_with("ce013625030ba8dba906f756967f9e9ca394464"));
    assert_eq!(hex, "ce013625030ba8dba906f756967f9e9ca394464a");
    assert_eq!(o.digest.len(), 20);
    assert_eq!(o.digest[0], 0xce);
    assert_eq!(digest_to_hex(&o.digest), o.hex);
}

#[test]
fn blob_write_read_round_trip() {
    let contents: Vec<Vec<u8>> = vec![vec![], b"hello\n".to_vec(), vec![0u8, 1, 2, 255, 0], vec![b'x'; 5000]];
    for c in contents {
        let o = hash_blob(&c);
        assert_eq!(read_object(&o.bytes), Ok((ObjectKind::Blob, c.clone())));
    }
}

#[test]
fn stored_bytes_are_compressed() {
    let o = hash_blob(b"hello\n");
    assert_ne!(o.bytes, frame(ObjectKind::Blob, b"hello\n"));
    assert_eq!(o.bytes[0], 0x78);
}

#[test]
fn write_is_deterministic() {
    let a = hash_object(ObjectKind::Tree, b"some tree bytes");
    let b = hash_object(ObjectKind::Tree, b"some tree bytes");
    assert_eq!(a.digest, b.digest);
    assert_eq!(a.hex, b.hex);
    assert_eq!(a.bytes, b.bytes);
    let c = hash_object(ObjectKind::Blob, b"some tree bytes");
    assert_ne!(a.digest, c.digest);
}

#[test]
fn corrupt_stored_bytes_fail_with_format() {
    assert_eq!(read_object(b"this is not zlib data"), Err(ObjectError::Format));
    assert_eq!(read_object(b""), Err(ObjectError::Format));
}

#[test]
fn short_digest_is_invalid() {
    assert_eq!(object_location(b"ce0136"), Err(ObjectError::InvalidDigest));
    assert_eq!(
        object_location(b"ce013625030ba8dba906f756967f9e9ca394464"),
        Err(ObjectError::InvalidDigest)
    );
    assert_eq!(
        object_location(b"CE013625030BA8DBA906F756967F9E9CA394464A"),
        Err(ObjectError::InvalidDigest)
    );
    assert!(!is_valid_digest(b"ce013625030ba8dba906f756967f9e9ca39446zz"));
}

#[test]
fn digest_location_is_sharded() {
    let (dir, file) = object_location(b"ce013625030ba8dba906f756967f9e9ca394464a").unwrap();
    assert_eq!(dir, b"ce".to_vec());
    assert_eq!(file, b"013625030ba8dba906f756967f9e9ca394464a".to_vec());
}

#[test]
fn frame_layout() {
    assert_eq!(frame(ObjectKind::Blob, b"hello\n"), b"blob 6\0hello\n".to_vec());
    assert_eq!(frame(ObjectKind::Commit, b""), b"commit 0\0".to_vec());
    assert_eq!(encode_decimal(0), b"0".to_vec());
    assert_eq!(encode_decimal(1234567), b"1234567".to_vec());
}

#[test]
fn unframe_accepts_frames_only() {
    assert_eq!(unframe(b"tree 3\0abc"), Ok((ObjectKind::Tree, b"abc".to_vec())));
    assert_eq!(unframe(b"blob 3abc"), Err(ObjectError::Format));
    assert_eq!(unframe(b"blob 4\0abc"), Err(ObjectError::Format));
    // A length with a leading zero is not how a frame writes it.
    assert_eq!(unframe(b"blob 03\0abc"), Err(ObjectError::Format));
    assert_eq!(unframe(b"blob x\0abc"), Err(ObjectError::Format));
    assert_eq!(unframe(b"tag 3\0abc"), Err(ObjectError::Format));
    assert_eq!(unframe(b"blob3\0abc"), Err(ObjectError::Format));
}

#[test]
fn cat_file_queries() {
    let o = hash_blob(b"hello\n");
    assert_eq!(cat_file(&o.bytes, CatQuery::Content), Ok(b"hello\n".to_vec()));
    assert_eq!(cat_file(&o.bytes, CatQuery::Kind), Ok(b"blob".to_vec()));
    assert_eq!(cat_file(&o.bytes, CatQuery::Size), Ok(b"6".to_vec()));
    assert_eq!(cat_file(b"junk", CatQuery::Size), Err(ObjectError::Format));
}
