//! The object store's logic: what bytes go where when an object is written,
//! and what stored bytes mean when they are read back.
use vstd::prelude::*;
use vstd::slice::slice_subrange;
use crate::codec::{
    decimal, encode_decimal, frame, frame_of, kind_bytes, kind_name, lemma_unframe_frame, unframe,
    unframe_of, ObjectKind,
};
use crate::error::ObjectError;
use crate::hashing::{
    hex_encode, hex_of, inflate_of, sha1_digest, sha1_of, zlib_compress,
    zlib_decompress, zlib_of,
};

verus! {

/// An object ready to be stored: its raw digest, the digest in hex (which
/// names its file), and the compressed frame that the file holds.
#[derive(Debug)]
pub struct StoredObject {
    pub digest: Vec<u8>,
    pub hex: Vec<u8>,
    pub bytes: Vec<u8>,
}

pub struct StoredView {
    pub digest: Seq<u8>,
    pub hex: Seq<u8>,
    pub bytes: Seq<u8>,
}

impl View for StoredObject {
    type V = StoredView;

    open spec fn view(&self) -> StoredView {
        StoredView { digest: self.digest@, hex: self.hex@, bytes: self.bytes@ }
    }
}

/// The raw digest of an object: SHA-1 over its frame.
pub open spec fn object_digest(k: ObjectKind, c: Seq<u8>) -> Seq<u8> {
    sha1_of(frame_of(k, c))
}

/// `o` is what writing an object of kind `k` with content `c` stores.
pub open spec fn written(o: StoredView, k: ObjectKind, c: Seq<u8>) -> bool {
    &&& o.digest == object_digest(k, c)
    &&& o.digest.len() == 20
    &&& o.hex == hex_of(o.digest)
    &&& o.bytes == zlib_of(frame_of(k, c))
    &&& inflate_of(o.bytes) == Some(frame_of(k, c))
}

/// The kind and content that stored bytes hold, if they hold an object.
pub open spec fn read_of(stored: Seq<u8>) -> Option<(ObjectKind, Seq<u8>)> {
    match inflate_of(stored) {
        Some(f) => unframe_of(f),
        None => None,
    }
}

pub open spec fn is_lower_hex(b: u8) -> bool {
    (48 <= b <= 57) || (97 <= b <= 102)
}

/// A digest in text: exactly 40 lowercase hex characters.
pub open spec fn is_hex_digest(s: Seq<u8>) -> bool {
    s.len() == 40 && forall|i: int| 0 <= i < s.len() ==> is_lower_hex(#[trigger] s[i])
}

pub proof fn lemma_hex_of_shape(b: Seq<u8>)
    ensures
        hex_of(b).len() == 2 * b.len(),
        forall|i: int| 0 <= i < hex_of(b).len() ==> is_lower_hex(#[trigger] hex_of(b)[i]),
    decreases b.len(),
{
    if b.len() > 0 {
        lemma_hex_of_shape(b.drop_first());
        let h = hex_of(b);
        let t = hex_of(b.drop_first());
        assert forall|i: int| 0 <= i < h.len() implies is_lower_hex(#[trigger] h[i]) by {
            if i >= 2 {
                assert(h[i] == t[i - 2]);
            }
        }
    }
}

/// Reading back what was written gives the same kind and content.
pub proof fn lemma_write_read_round_trip(o: StoredView, k: ObjectKind, c: Seq<u8>)
    requires
        written(o, k, c),
    ensures
        read_of(o.bytes) == Some((k, c)),
{
    lemma_unframe_frame(k, c);
}

/// Writing the same object twice gives the same digest and the same bytes
/// under the same name.
pub proof fn lemma_write_deterministic(o1: StoredView, o2: StoredView, k: ObjectKind, c: Seq<u8>)
    requires
        written(o1, k, c),
        written(o2, k, c),
    ensures
        o1 == o2,
{
}

/// Computes what writing an object stores: its digest, its hex name and
/// its compressed frame.
pub fn hash_object(k: ObjectKind, content: &[u8]) -> (r: StoredObject)
    ensures
        written(r@, k, content@),
        is_hex_digest(r.hex@),
{
    let framed = frame(k, content);
    let digest = sha1_digest(framed.as_slice());
    proof {
        lemma_hex_of_shape(digest@);
    }
    let hex = hex_encode(digest.as_slice());
    let bytes = zlib_compress(framed.as_slice());
    StoredObject { digest, hex, bytes }
}

/// The object a blob with this content becomes.
pub fn hash_blob(content: &[u8]) -> (r: StoredObject)
    ensures
        written(r@, ObjectKind::Blob, content@),
        is_hex_digest(r.hex@),
{
    hash_object(ObjectKind::Blob, content)
}

/// Whether `s` is a digest in text.
pub fn is_valid_digest(s: &[u8]) -> (r: bool)
    ensures
        r == is_hex_digest(s@),
{
    if s.len() != 40 {
        return false;
    }
    let mut i: usize = 0;
    while i < s.len()
        invariant
            i <= s.len() == 40,
            forall|j: int| 0 <= j < i ==> is_lower_hex(#[trigger] s@[j]),
        decreases s.len() - i,
    {
        let b = s[i];
        if !((48u8 <= b && b <= 57u8) || (97u8 <= b && b <= 102u8)) {
            return false;
        }
        i += 1;
    }
    true
}

/// Where the object named by `hex` lies: the shard directory (its first two
/// characters) and the file name in it (the other 38). Fails with
/// `InvalidDigest` exactly when `hex` is not a digest, before anything is read.
pub fn object_location(hex: &[u8]) -> (r: Result<(Vec<u8>, Vec<u8>), ObjectError>)
    ensures
        match r {
            Ok((dir, file)) => is_hex_digest(hex@) && dir@ == hex@.subrange(0, 2)
                && file@ == hex@.subrange(2, 40),
            Err(e) => e == ObjectError::InvalidDigest && !is_hex_digest(hex@),
        },
{
    if !is_valid_digest(hex) {
        return Err(ObjectError::InvalidDigest);
    }
    let mut dir: Vec<u8> = Vec::new();
    dir.extend_from_slice(slice_subrange(hex, 0, 2));
    let mut file: Vec<u8> = Vec::new();
    file.extend_from_slice(slice_subrange(hex, 2, 40));
    Ok((dir, file))
}

/// The hex name of a raw digest.
pub fn digest_to_hex(digest: &[u8]) -> (r: Vec<u8>)
    ensures
        r@ == hex_of(digest@),
        digest@.len() == 20 ==> is_hex_digest(r@),
{
    proof {
        lemma_hex_of_shape(digest@);
    }
    hex_encode(digest)
}

/// Decompresses and unframes stored bytes. Fails with `Format` exactly when
/// they do not decompress or do not hold a well-formed frame.
pub fn read_object(stored: &[u8]) -> (r: Result<(ObjectKind, Vec<u8>), ObjectError>)
    ensures
        match r {
            Ok((k, c)) => read_of(stored@) == Some((k, c@)),
            Err(e) => e == ObjectError::Format && read_of(stored@) is None,
        },
{
    match zlib_decompress(stored) {
        Some(framed) => unframe(framed.as_slice()),
        None => Err(ObjectError::Format),
    }
}

/// What to show of a stored object.
#[derive(PartialEq, Eq, Structural, Clone, Copy, Debug)]
pub enum CatQuery {
    /// Its content.
    Content,
    /// The name of its kind.
    Kind,
    /// Its content length in decimal.
    Size,
}

pub open spec fn shown(obj: (ObjectKind, Seq<u8>), q: CatQuery) -> Seq<u8> {
    match q {
        CatQuery::Content => obj.1,
        CatQuery::Kind => kind_name(obj.0),
        CatQuery::Size => decimal(obj.1.len()),
    }
}

/// The bytes to show for a stored object. Fails with `Format` exactly when
/// the stored bytes do not hold an object.
pub fn cat_file(stored: &[u8], query: CatQuery) -> (r: Result<Vec<u8>, ObjectError>)
    ensures
        match r {
            Ok(v) => read_of(stored@) is Some && v@ == shown(read_of(stored@)->0, query),
            Err(e) => e == ObjectError::Format && read_of(stored@) is None,
        },
{
    let (k, content) = read_object(stored)?;
    match query {
        CatQuery::Content => Ok(content),
        CatQuery::Kind => Ok(kind_bytes(k)),
        CatQuery::Size => Ok(encode_decimal(content.len() as u64)),
    }
}

} // verus!
