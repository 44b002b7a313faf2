//! Byte-level framing of objects: `"<kind> <decimal length>\0<content>"`.
use vstd::prelude::*;
use vstd::slice::slice_subrange;
use crate::error::ObjectError;

verus! {

/// The three kinds of object the store knows.
#[derive(PartialEq, Eq, Structural, Clone, Copy, Debug)]
pub enum ObjectKind {
    Blob,
    Tree,
    Commit,
}

/// The ASCII name of a kind, as it appears in a frame header.
pub open spec fn kind_name(k: ObjectKind) -> Seq<u8> {
    match k {
        ObjectKind::Blob => seq![98u8, 108u8, 111u8, 98u8],
        ObjectKind::Tree => seq![116u8, 114u8, 101u8, 101u8],
        ObjectKind::Commit => seq![99u8, 111u8, 109u8, 109u8, 105u8, 116u8],
    }
}

pub open spec fn is_digit(b: u8) -> bool {
    48 <= b <= 57
}

/// Decimal ASCII rendering of a natural number, without leading zeros.
pub open spec fn decimal(n: nat) -> Seq<u8>
    decreases n,
{
    if n < 10 {
        seq![(48 + n) as u8]
    } else {
        decimal(n / 10).push((48 + n % 10) as u8)
    }
}

/// The frame of an object: kind name, a space, the content length in
/// decimal, a NUL byte, then the content itself.
pub open spec fn frame_of(k: ObjectKind, content: Seq<u8>) -> Seq<u8> {
    kind_name(k) + seq![32u8] + decimal(content.len()) + seq![0u8] + content
}

/// The kind and content that a byte string is the frame of, if any.
pub open spec fn unframe_of(b: Seq<u8>) -> Option<(ObjectKind, Seq<u8>)> {
    if exists|k: ObjectKind, c: Seq<u8>| frame_of(k, c) == b {
        Some(choose|k: ObjectKind, c: Seq<u8>| frame_of(k, c) == b)
    } else {
        None
    }
}

pub proof fn lemma_decimal_digits(n: nat)
    ensures
        decimal(n).len() >= 1,
        forall|i: int| 0 <= i < decimal(n).len() ==> is_digit(#[trigger] decimal(n)[i]),
    decreases n,
{
    if n >= 10 {
        lemma_decimal_digits(n / 10);
    }
}

/// Where the parts of a frame lie: the kind name holds neither a space nor a
/// NUL, the length holds only digits, and the first NUL ends the header.
pub proof fn lemma_frame_layout(k: ObjectKind, c: Seq<u8>)
    ensures
        ({
            let f = frame_of(k, c);
            let n = kind_name(k).len() as int;
            let d = decimal(c.len());
            &&& f.len() == n + 1 + d.len() + 1 + c.len()
            &&& f.subrange(0, n) == kind_name(k)
            &&& f[n] == 32u8
            &&& f.subrange(n + 1, n + 1 + d.len()) == d
            &&& f[n + 1 + d.len()] == 0u8
            &&& f.subrange(n + 2 + d.len(), f.len() as int) == c
            &&& forall|j: int| 0 <= j < n ==> f[j] != 0u8 && f[j] != 32u8
            &&& forall|j: int| n < j < n + 1 + d.len() ==> f[j] != 0u8
        }),
{
    let f = frame_of(k, c);
    let n = kind_name(k).len() as int;
    let d = decimal(c.len());
    lemma_decimal_digits(c.len());
    assert(f.subrange(0, n) =~= kind_name(k));
    assert(f.subrange(n + 1, n + 1 + d.len()) =~= d);
    assert(f.subrange(n + 2 + d.len(), f.len() as int) =~= c);
    assert forall|j: int| n < j < n + 1 + d.len() implies f[j] != 0u8 by {
        assert(f[j] == d[j - n - 1]);
    }
}

/// A frame determines the kind and the content it was made of.
pub proof fn lemma_frame_injective(k1: ObjectKind, c1: Seq<u8>, k2: ObjectKind, c2: Seq<u8>)
    requires
        frame_of(k1, c1) == frame_of(k2, c2),
    ensures
        k1 == k2,
        c1 == c2,
{
    let f = frame_of(k1, c1);
    lemma_frame_layout(k1, c1);
    lemma_frame_layout(k2, c2);
    let n1 = kind_name(k1).len() as int;
    let n2 = kind_name(k2).len() as int;
    if n1 < n2 {
        assert(f[n1] == 32u8);
    } else if n2 < n1 {
        assert(f[n2] == 32u8);
    }
    assert(kind_name(k1) == kind_name(k2));
    assert(k1 == k2) by {
        if k1 != k2 {
            assert(kind_name(k1)[0] != kind_name(k2)[0] || kind_name(k1).len() != kind_name(k2).len());
        }
    }
    let d1 = decimal(c1.len());
    let d2 = decimal(c2.len());
    if d1.len() < d2.len() {
        assert(f[n1 + 1 + d1.len() as int] == 0u8);
    } else if d2.len() < d1.len() {
        assert(f[n1 + 1 + d2.len() as int] == 0u8);
    }
    assert(d1 == d2);
}

/// Unframing undoes framing.
pub proof fn lemma_unframe_frame(k: ObjectKind, c: Seq<u8>)
    ensures
        unframe_of(frame_of(k, c)) == Some((k, c)),
{
    let f = frame_of(k, c);
    assert(frame_of(k, c) == f);
    let (k2, c2) = choose|k2: ObjectKind, c2: Seq<u8>| frame_of(k2, c2) == f;
    lemma_frame_injective(k2, c2, k, c);
}

/// The decimal rendering of `n`.
pub fn encode_decimal(n: u64) -> (r: Vec<u8>)
    ensures
        r@ == decimal(n as nat),
    decreases n,
{
    if n < 10 {
        let mut v: Vec<u8> = Vec::new();
        v.push((48 + n) as u8);
        assert(v@ =~= decimal(n as nat));
        v
    } else {
        let mut v = encode_decimal(n / 10);
        v.push((48 + n % 10) as u8);
        v
    }
}

/// The ASCII name of a kind.
pub fn kind_bytes(k: ObjectKind) -> (r: Vec<u8>)
    ensures
        r@ == kind_name(k),
{
    let r = match k {
        ObjectKind::Blob => vec![98u8, 108u8, 111u8, 98u8],
        ObjectKind::Tree => vec![116u8, 114u8, 101u8, 101u8],
        ObjectKind::Commit => vec![99u8, 111u8, 109u8, 109u8, 105u8, 116u8],
    };
    assert(r@ =~= kind_name(k));
    r
}

/// The kind whose name is `name`, if there is one.
pub fn kind_of_name(name: &[u8]) -> (r: Option<ObjectKind>)
    ensures
        match r {
            Some(k) => name@ == kind_name(k),
            None => forall|k: ObjectKind| name@ != kind_name(k),
        },
{
    let kinds = [ObjectKind::Blob, ObjectKind::Tree, ObjectKind::Commit];
    let mut i: usize = 0;
    while i < 3
        invariant
            0 <= i <= 3,
            kinds@ == seq![ObjectKind::Blob, ObjectKind::Tree, ObjectKind::Commit],
            forall|j: int| 0 <= j < i ==> name@ != kind_name(#[trigger] kinds@[j]),
        decreases 3 - i,
    {
        let candidate = kind_bytes(kinds[i]);
        if bytes_equal(name, candidate.as_slice()) {
            return Some(kinds[i]);
        }
        i += 1;
    }
    assert forall|k: ObjectKind| name@ != kind_name(k) by {
        match k {
            ObjectKind::Blob => assert(kinds@[0] == k),
            ObjectKind::Tree => assert(kinds@[1] == k),
            ObjectKind::Commit => assert(kinds@[2] == k),
        }
    }
    None
}

/// Whether two byte strings are equal.
pub fn bytes_equal(a: &[u8], b: &[u8]) -> (r: bool)
    ensures
        r == (a@ == b@),
{
    if a.len() != b.len() {
        return false;
    }
    let mut i: usize = 0;
    while i < a.len()
        invariant
            i <= a.len() == b.len(),
            forall|j: int| 0 <= j < i ==> a@[j] == b@[j],
        decreases a.len() - i,
    {
        if a[i] != b[i] {
            return false;
        }
        i += 1;
    }
    assert(a@ =~= b@);
    true
}

/// The frame of an object of kind `k` holding `content`.
pub fn frame(k: ObjectKind, content: &[u8]) -> (r: Vec<u8>)
    ensures
        r@ == frame_of(k, content@),
{
    let mut r = kind_bytes(k);
    r.push(32u8);
    let size = encode_decimal(content.len() as u64);
    r.extend_from_slice(size.as_slice());
    r.push(0u8);
    r.extend_from_slice(content);
    assert(r@ =~= frame_of(k, content@));
    r
}

/// Splits a frame into its kind and content. Fails with `Format` exactly when
/// the bytes are not the frame of any object: no NUL, an unknown kind, or a
/// length that is not the decimal length of what follows the NUL. The length
/// must be written as `frame` writes it, so a length with leading zeros
/// (`blob 03`) is refused on purpose: each object then has exactly one frame,
/// and so exactly one digest.
pub fn unframe(b: &[u8]) -> (r: Result<(ObjectKind, Vec<u8>), ObjectError>)
    ensures
        match r {
            Ok((k, c)) => frame_of(k, c@) == b@ && unframe_of(b@) == Some((k, c@)),
            Err(e) => e == ObjectError::Format && unframe_of(b@) is None,
        },
{
    let mut z: usize = 0;
    while z < b.len() && b[z] != 0u8
        invariant
            z <= b.len(),
            forall|j: int| 0 <= j < z ==> b@[j] != 0u8,
        decreases b.len() - z,
    {
        z += 1;
    }
    if z == b.len() {
        assert forall|k: ObjectKind, c: Seq<u8>| frame_of(k, c) != b@ by {
            if frame_of(k, c) == b@ {
                lemma_frame_layout(k, c);
                let p = kind_name(k).len() as int + 1 + decimal(c.len()).len() as int;
                assert(b@[p] == 0u8);
            }
        }
        return Err(ObjectError::Format);
    }
    let mut sp: usize = 0;
    while sp < z && b[sp] != 32u8
        invariant
            sp <= z < b.len(),
            forall|j: int| 0 <= j < sp ==> b@[j] != 32u8,
        decreases z - sp,
    {
        sp += 1;
    }
    let body_len = b.len() - z - 1;
    let size = encode_decimal(body_len as u64);
    let kind = if sp < z { kind_of_name(slice_subrange(b, 0, sp)) } else { None };
    let size_ok = sp < z && bytes_equal(slice_subrange(b, sp + 1, z), size.as_slice());
    match kind {
        Some(k) if size_ok => {
            let mut content: Vec<u8> = Vec::new();
            content.extend_from_slice(slice_subrange(b, z + 1, b.len()));
            assert(frame_of(k, content@) =~= b@);
            proof {
                lemma_unframe_frame(k, content@);
            }
            Ok((k, content))
        },
        _ => {
            assert forall|k: ObjectKind, c: Seq<u8>| frame_of(k, c) != b@ by {
                if frame_of(k, c) == b@ {
                    lemma_frame_layout(k, c);
                    let n = kind_name(k).len() as int;
                    let p = n + 1 + decimal(c.len()).len() as int;
                    if z < p {
                        assert(b@[z as int] != 0u8);
                    }
                    assert(z == p);
                    if sp < n {
                        assert(b@[sp as int] != 32u8);
                    }
                    assert(sp == n);
                    assert(b@.subrange(0, sp as int) == kind_name(k));
                    assert(body_len == c.len());
                    assert(b@.subrange(sp + 1, z as int) == size@);
                }
            }
            Err(ObjectError::Format)
        },
    }
}

} // verus!
