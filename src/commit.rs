//! Commit objects: a tree line, an optional parent line, author and
//! committer lines, a blank line, then the message.
use vstd::prelude::*;
use vstd::slice::slice_subrange;
use crate::codec::{bytes_equal, decimal, encode_decimal, ObjectKind};
use crate::error::ObjectError;
use crate::store::{hash_object, is_hex_digest, is_valid_digest, written, StoredObject};

verus! {

pub open spec fn tree_prefix() -> Seq<u8> {
    seq![116u8, 114u8, 101u8, 101u8, 32u8]
}

pub open spec fn parent_prefix() -> Seq<u8> {
    seq![112u8, 97u8, 114u8, 101u8, 110u8, 116u8, 32u8]
}

pub open spec fn author_prefix() -> Seq<u8> {
    seq![97u8, 117u8, 116u8, 104u8, 111u8, 114u8, 32u8]
}

pub open spec fn committer_prefix() -> Seq<u8> {
    seq![99u8, 111u8, 109u8, 109u8, 105u8, 116u8, 116u8, 101u8, 114u8, 32u8]
}

pub open spec fn newline() -> Seq<u8> {
    seq![10u8]
}

pub open spec fn has_no_newline(s: Seq<u8>) -> bool {
    forall|i: int| 0 <= i < s.len() ==> s[i] != 10u8
}

pub open spec fn parent_line(parent: Option<Seq<u8>>) -> Seq<u8> {
    match parent {
        Some(p) => parent_prefix() + p + newline(),
        None => Seq::empty(),
    }
}

/// The text of a commit whose author and committer lines are given whole.
pub open spec fn commit_layout(
    tree: Seq<u8>,
    parent: Option<Seq<u8>>,
    author: Seq<u8>,
    committer: Seq<u8>,
    message: Seq<u8>,
) -> Seq<u8> {
    tree_prefix() + tree + newline() + parent_line(parent) + author + newline() + committer
        + newline() + newline() + message
}

/// A signature line's tail: identity, time in decimal, time-zone offset.
pub open spec fn signature(ident: Seq<u8>, time: nat, tz: Seq<u8>) -> Seq<u8> {
    ident + seq![32u8] + decimal(time) + seq![32u8] + tz
}

/// The text of a commit made by `ident` at `time`, as both author and committer.
pub open spec fn commit_text(
    tree: Seq<u8>,
    parent: Option<Seq<u8>>,
    ident: Seq<u8>,
    time: nat,
    tz: Seq<u8>,
    message: Seq<u8>,
) -> Seq<u8> {
    commit_layout(
        tree,
        parent,
        author_prefix() + signature(ident, time, tz),
        committer_prefix() + signature(ident, time, tz),
        message,
    )
}

pub open spec fn parent_ok(parent: Option<Seq<u8>>) -> bool {
    match parent {
        Some(p) => is_hex_digest(p),
        None => true,
    }
}

/// The fields of a commit: the digests it names, its two signature lines
/// (each whole, without the newline) and its message.
#[derive(Debug)]
pub struct CommitRecord {
    pub tree: Vec<u8>,
    pub parent: Option<Vec<u8>>,
    pub author: Vec<u8>,
    pub committer: Vec<u8>,
    pub message: Vec<u8>,
}

pub open spec fn parent_view(p: Option<Vec<u8>>) -> Option<Seq<u8>> {
    match p {
        Some(v) => Some(v@),
        None => None,
    }
}

/// The fields are those of a well-formed commit.
pub open spec fn fields_ok(
    tree: Seq<u8>,
    parent: Option<Seq<u8>>,
    author: Seq<u8>,
    committer: Seq<u8>,
) -> bool {
    &&& is_hex_digest(tree)
    &&& parent_ok(parent)
    &&& has_no_newline(author) && author.len() >= 7 && author.subrange(0, 7) == author_prefix()
    &&& has_no_newline(committer) && committer.len() >= 10 && committer.subrange(0, 10)
        == committer_prefix()
}

/// The parent that a commit text names: the digest on its second line when
/// that line is a parent line.
pub open spec fn parent_of_text(c: Seq<u8>) -> Option<Seq<u8>> {
    if c.len() >= 53 && c.subrange(46, 53) == parent_prefix() {
        Some(c.subrange(53, 93))
    } else {
        None
    }
}

/// `c` is a well-formed commit text.
pub open spec fn is_commit(c: Seq<u8>) -> bool {
    exists|t: Seq<u8>, p: Option<Seq<u8>>, a: Seq<u8>, m: Seq<u8>, msg: Seq<u8>|
        fields_ok(t, p, a, m) && commit_layout(t, p, a, m, msg) == c
}

/// Where the parts of a commit text lie.
proof fn lemma_commit_layout(t: Seq<u8>, p: Option<Seq<u8>>, a: Seq<u8>, m: Seq<u8>, msg: Seq<u8>)
    requires
        fields_ok(t, p, a, m),
    ensures
        ({
            let c = commit_layout(t, p, a, m, msg);
            let pos: int = if p is Some { 94 } else { 46 };
            let q = pos + a.len() + 1;
            &&& c.len() == q + m.len() + 2 + msg.len()
            &&& c.subrange(0, 5) == tree_prefix()
            &&& c.subrange(5, 45) == t
            &&& c[45] == 10u8
            &&& (p is Some ==> c.subrange(46, 53) == parent_prefix() && c.subrange(53, 93)
                == p->0 && c[93] == 10u8)
            &&& c.subrange(pos, pos + 7) == a.subrange(0, 7)
            &&& c.subrange(pos, pos + a.len()) == a
            &&& forall|j: int| pos <= j < pos + a.len() ==> c[j] != 10u8
            &&& c[pos + a.len()] == 10u8
            &&& c.subrange(q, q + m.len()) == m
            &&& forall|j: int| q <= j < q + m.len() ==> c[j] != 10u8
            &&& c[q + m.len()] == 10u8
            &&& c[q + m.len() + 1] == 10u8
            &&& c.subrange(q + m.len() + 2, c.len() as int) == msg
        }),
{
    let c = commit_layout(t, p, a, m, msg);
    let pos: int = if p is Some { 94 } else { 46 };
    let q = pos + a.len() + 1;
    let head = tree_prefix() + t + newline() + parent_line(p);
    assert(head.len() == pos);
    assert(c =~= head + a + newline() + m + newline() + newline() + msg);
    assert(c.subrange(0, 5) =~= tree_prefix());
    assert(c.subrange(5, 45) =~= t);
    if p is Some {
        assert(c.subrange(46, 53) =~= parent_prefix());
        assert(c.subrange(53, 93) =~= p->0);
    }
    assert(c.subrange(pos, pos + a.len()) =~= a);
    assert(c.subrange(pos, pos + 7) =~= a.subrange(0, 7));
    assert(c.subrange(q, q + m.len()) =~= m);
    assert(c.subrange(q + m.len() + 2, c.len() as int) =~= msg);
    assert forall|j: int| pos <= j < pos + a.len() implies c[j] != 10u8 by {
        assert(c[j] == a[j - pos]);
    }
    assert forall|j: int| q <= j < q + m.len() implies c[j] != 10u8 by {
        assert(c[j] == m[j - q]);
    }
}

/// Whether `prefix` stands in `b` at offset `off`.
fn occurs_at(b: &[u8], off: usize, prefix: &[u8]) -> (r: bool)
    requires
        off <= b.len(),
    ensures
        r == (off + prefix@.len() <= b@.len() && b@.subrange(off as int, off + prefix@.len())
            == prefix@),
{
    if b.len() - off < prefix.len() {
        return false;
    }
    bytes_equal(slice_subrange(b, off, off + prefix.len()), prefix)
}

/// The first newline at or after `from`, or the length of `b` if none.
fn find_newline(b: &[u8], from: usize) -> (r: usize)
    requires
        from <= b.len(),
    ensures
        from <= r <= b.len(),
        forall|j: int| from <= j < r ==> b@[j] != 10u8,
        r < b.len() ==> b@[r as int] == 10u8,
{
    let mut i = from;
    while i < b.len() && b[i] != 10u8
        invariant
            from <= i <= b.len(),
            forall|j: int| from <= j < i ==> b@[j] != 10u8,
        decreases b.len() - i,
    {
        i += 1;
    }
    i
}

fn copy_range(b: &[u8], from: usize, to: usize) -> (r: Vec<u8>)
    requires
        from <= to <= b.len(),
    ensures
        r@ == b@.subrange(from as int, to as int),
{
    let mut r: Vec<u8> = Vec::new();
    r.extend_from_slice(slice_subrange(b, from, to));
    r
}

proof fn lemma_bad_head(c: Seq<u8>)
    requires
        !(c.len() >= 46 && c.subrange(0, 5) == tree_prefix() && is_hex_digest(c.subrange(5, 45))
            && c[45] == 10u8),
    ensures
        !is_commit(c),
{
    assert forall|t: Seq<u8>, p: Option<Seq<u8>>, a: Seq<u8>, m: Seq<u8>, msg: Seq<u8>|
        fields_ok(t, p, a, m) implies commit_layout(t, p, a, m, msg) != c by {
        lemma_commit_layout(t, p, a, m, msg);
    }
}

proof fn lemma_parent_or_author(c: Seq<u8>, t: Seq<u8>, p: Option<Seq<u8>>, a: Seq<u8>, m: Seq<u8>, msg: Seq<u8>)
    requires
        fields_ok(t, p, a, m),
        commit_layout(t, p, a, m, msg) == c,
    ensures
        (p is Some) == (c.len() >= 53 && c.subrange(46, 53) == parent_prefix()),
{
    lemma_commit_layout(t, p, a, m, msg);
    if p is None {
        assert(author_prefix()[0] != parent_prefix()[0]);
        assert(c.subrange(46, 53)[0] == c[46]);
        assert(a.subrange(0, 7)[0] == author_prefix()[0]);
    }
}

/// A well-formed commit text names one parent at most, the one its fields hold.
pub proof fn lemma_parent_of_text(t: Seq<u8>, p: Option<Seq<u8>>, a: Seq<u8>, m: Seq<u8>, msg: Seq<u8>)
    requires
        fields_ok(t, p, a, m),
    ensures
        parent_of_text(commit_layout(t, p, a, m, msg)) == p,
{
    lemma_parent_or_author(commit_layout(t, p, a, m, msg), t, p, a, m, msg);
    lemma_commit_layout(t, p, a, m, msg);
}

proof fn lemma_bad_parent(c: Seq<u8>)
    requires
        c.len() >= 53 && c.subrange(46, 53) == parent_prefix(),
        !(c.len() >= 94 && is_hex_digest(c.subrange(53, 93)) && c[93] == 10u8),
    ensures
        !is_commit(c),
{
    assert forall|t: Seq<u8>, p: Option<Seq<u8>>, a: Seq<u8>, m: Seq<u8>, msg: Seq<u8>|
        fields_ok(t, p, a, m) implies commit_layout(t, p, a, m, msg) != c by {
        if commit_layout(t, p, a, m, msg) == c {
            lemma_commit_layout(t, p, a, m, msg);
            lemma_parent_or_author(c, t, p, a, m, msg);
        }
    }
}

proof fn lemma_bad_signatures(c: Seq<u8>, pos: int, a_end: int, m_end: int)
    requires
        c.len() >= 46,
        pos == if c.len() >= 53 && c.subrange(46, 53) == parent_prefix() { 94int } else { 46int },
        pos <= a_end <= c.len(),
        forall|j: int| pos <= j < a_end ==> c[j] != 10u8,
        a_end < c.len() ==> c[a_end] == 10u8,
        a_end < c.len() ==> a_end + 1 <= m_end <= c.len(),
        a_end < c.len() ==> forall|j: int| a_end + 1 <= j < m_end ==> c[j] != 10u8,
        a_end < c.len() && m_end < c.len() ==> c[m_end] == 10u8,
        !(a_end < c.len() && a_end - pos >= 7 && c.subrange(pos, pos + 7) == author_prefix()
            && m_end + 1 < c.len() && m_end - (a_end + 1) >= 10 && c.subrange(a_end + 1, a_end + 11)
            == committer_prefix() && c[m_end + 1] == 10u8),
    ensures
        !is_commit(c),
{
    assert forall|t: Seq<u8>, p: Option<Seq<u8>>, a: Seq<u8>, m: Seq<u8>, msg: Seq<u8>|
        fields_ok(t, p, a, m) implies commit_layout(t, p, a, m, msg) != c by {
        if commit_layout(t, p, a, m, msg) == c {
            lemma_commit_layout(t, p, a, m, msg);
            lemma_parent_or_author(c, t, p, a, m, msg);
            let pa = pos + a.len();
            if a_end < pa {
                assert(c[a_end] != 10u8);
            }
            assert(a_end == pa);
            assert(c.subrange(pos, pos + 7) =~= a.subrange(0, 7));
            let q = pa + 1;
            if m_end < q + m.len() {
                assert(c[m_end] != 10u8);
            }
            assert(m_end == q + m.len());
            assert(c.subrange(q, q + 10) =~= m.subrange(0, 10));
        }
    }
}

proof fn lemma_commit_assembled(c: Seq<u8>, pv: Option<Seq<u8>>, pos: int, a_end: int, m_end: int)
    requires
        c.len() >= 46,
        c.subrange(0, 5) == tree_prefix(),
        is_hex_digest(c.subrange(5, 45)),
        c[45] == 10u8,
        pv is Some ==> pos == 94 && c.subrange(46, 53) == parent_prefix() && pv->0 == c.subrange(53, 93)
            && is_hex_digest(pv->0) && c[93] == 10u8,
        pv is None ==> pos == 46,
        pos <= a_end < c.len(),
        forall|j: int| pos <= j < a_end ==> c[j] != 10u8,
        c[a_end] == 10u8,
        a_end + 1 <= m_end,
        m_end + 1 < c.len(),
        forall|j: int| a_end + 1 <= j < m_end ==> c[j] != 10u8,
        c[m_end] == 10u8,
        c[m_end + 1] == 10u8,
        a_end - pos >= 7 && c.subrange(pos, pos + 7) == author_prefix(),
        m_end - (a_end + 1) >= 10 && c.subrange(a_end + 1, a_end + 11) == committer_prefix(),
    ensures
        fields_ok(c.subrange(5, 45), pv, c.subrange(pos, a_end), c.subrange(a_end + 1, m_end)),
        commit_layout(c.subrange(5, 45), pv, c.subrange(pos, a_end), c.subrange(a_end + 1, m_end),
            c.subrange(m_end + 2, c.len() as int)) == c,
{
    let au = c.subrange(pos, a_end);
    let co = c.subrange(a_end + 1, m_end);
    assert(au.subrange(0, 7) =~= c.subrange(pos, pos + 7));
    assert(co.subrange(0, 10) =~= c.subrange(a_end + 1, a_end + 11));
    assert(parent_line(pv) =~= c.subrange(46, pos));
    assert(commit_layout(c.subrange(5, 45), pv, au, co, c.subrange(m_end + 2, c.len() as int)) =~= c);
}

/// Splits a commit text into its fields. Fails with `Format` exactly when
/// the text is not a well-formed commit.
pub fn parse_commit(c: &[u8]) -> (r: Result<CommitRecord, ObjectError>)
    ensures
        match r {
            Ok(rec) => fields_ok(rec.tree@, parent_view(rec.parent), rec.author@, rec.committer@)
                && commit_layout(rec.tree@, parent_view(rec.parent), rec.author@, rec.committer@,
                rec.message@) == c@ && parent_view(rec.parent) == parent_of_text(c@),
            Err(e) => e == ObjectError::Format && !is_commit(c@),
        },
{
    let tp = vec![116u8, 114u8, 101u8, 101u8, 32u8];
    let pp = vec![112u8, 97u8, 114u8, 101u8, 110u8, 116u8, 32u8];
    let ap = vec![97u8, 117u8, 116u8, 104u8, 111u8, 114u8, 32u8];
    let cp = vec![99u8, 111u8, 109u8, 109u8, 105u8, 116u8, 116u8, 101u8, 114u8, 32u8];
    assert(tp@ =~= tree_prefix() && pp@ =~= parent_prefix());
    assert(ap@ =~= author_prefix() && cp@ =~= committer_prefix());
    if c.len() < 46 || !occurs_at(c, 0, tp.as_slice()) || !is_valid_digest(slice_subrange(c, 5, 45))
        || c[45] != 10u8 {
        proof {
            lemma_bad_head(c@);
        }
        return Err(ObjectError::Format);
    }
    let tree = copy_range(c, 5, 45);
    let has_parent = occurs_at(c, 46, pp.as_slice());
    let mut parent: Option<Vec<u8>> = None;
    let mut pos: usize = 46;
    if has_parent {
        if c.len() < 94 || !is_valid_digest(slice_subrange(c, 53, 93)) || c[93] != 10u8 {
            proof {
                lemma_bad_parent(c@);
            }
            return Err(ObjectError::Format);
        }
        parent = Some(copy_range(c, 53, 93));
        pos = 94;
    }
    let a_end = find_newline(c, pos);
    let author_ok = a_end < c.len() && a_end - pos >= 7 && occurs_at(c, pos, ap.as_slice());
    let m_end = if a_end < c.len() {
        find_newline(c, a_end + 1)
    } else {
        c.len()
    };
    let committer_ok = a_end < c.len() && m_end < c.len() && c.len() - m_end >= 2 && m_end - (a_end
        + 1) >= 10 && occurs_at(c, a_end + 1, cp.as_slice()) && c[m_end + 1] == 10u8;
    if !author_ok || !committer_ok {
        proof {
            lemma_bad_signatures(c@, pos as int, a_end as int, m_end as int);
        }
        return Err(ObjectError::Format);
    }
    let author = copy_range(c, pos, a_end);
    let committer = copy_range(c, a_end + 1, m_end);
    let message = copy_range(c, m_end + 2, c.len());
    proof {
        lemma_commit_assembled(c@, parent_view(parent), pos as int, a_end as int, m_end as int);
        lemma_parent_of_text(tree@, parent_view(parent), author@, committer@, message@);
    }
    let rec = CommitRecord { tree, parent, author, committer, message };
    Ok(rec)
}

/// A commit made by `commit_content` is well formed and names the parent it
/// was given.
pub proof fn lemma_commit_text_well_formed(
    t: Seq<u8>,
    p: Option<Seq<u8>>,
    ident: Seq<u8>,
    time: nat,
    tz: Seq<u8>,
    msg: Seq<u8>,
)
    requires
        is_hex_digest(t),
        parent_ok(p),
        has_no_newline(ident),
        has_no_newline(tz),
    ensures
        is_commit(commit_text(t, p, ident, time, tz, msg)),
        parent_of_text(commit_text(t, p, ident, time, tz, msg)) == p,
{
    let sig = signature(ident, time, tz);
    let a = author_prefix() + sig;
    let m = committer_prefix() + sig;
    crate::codec::lemma_decimal_digits(time);
    let d = decimal(time);
    assert forall|i: int| 0 <= i < sig.len() implies sig[i] != 10u8 by {
        if i < ident.len() {
            assert(sig[i] == ident[i]);
        } else if ident.len() < i < ident.len() + 1 + d.len() {
            assert(sig[i] == d[i - ident.len() - 1]);
        } else if i > ident.len() + 1 + d.len() {
            assert(sig[i] == tz[i - ident.len() - 2 - d.len()]);
        }
    }
    assert forall|i: int| 0 <= i < a.len() implies a[i] != 10u8 by {
        if i >= 7 {
            assert(a[i] == sig[i - 7]);
        }
    }
    assert forall|i: int| 0 <= i < m.len() implies m[i] != 10u8 by {
        if i >= 10 {
            assert(m[i] == sig[i - 10]);
        }
    }
    assert(a.subrange(0, 7) =~= author_prefix());
    assert(m.subrange(0, 10) =~= committer_prefix());
    assert(fields_ok(t, p, a, m));
    assert(commit_layout(t, p, a, m, msg) == commit_text(t, p, ident, time, tz, msg));
    lemma_parent_of_text(t, p, a, m, msg);
}

pub open spec fn opt_view(p: Option<&[u8]>) -> Option<Seq<u8>> {
    match p {
        Some(v) => Some(v@),
        None => None,
    }
}

/// The text of a commit of `tree` with an optional `parent`, signed by
/// `ident` (name and address) at `time` seconds with offset `tz`. Fails with
/// `InvalidDigest` exactly when a digest is not 40 lowercase hex characters,
/// and otherwise with `Format` exactly when `ident` or `tz` holds a newline,
/// which would break the signature lines. What it returns is a well-formed
/// commit naming `parent`.
pub fn commit_content(
    tree: &[u8],
    parent: Option<&[u8]>,
    ident: &[u8],
    time: u64,
    tz: &[u8],
    message: &[u8],
) -> (r: Result<Vec<u8>, ObjectError>)
    ensures
        match r {
            Ok(v) => {
                &&& is_hex_digest(tree@) && parent_ok(opt_view(parent))
                &&& has_no_newline(ident@) && has_no_newline(tz@)
                &&& v@ == commit_text(tree@, opt_view(parent), ident@, time as nat, tz@, message@)
                &&& is_commit(v@)
                &&& parent_of_text(v@) == opt_view(parent)
            },
            Err(e) => if is_hex_digest(tree@) && parent_ok(opt_view(parent)) {
                e == ObjectError::Format && !(has_no_newline(ident@) && has_no_newline(tz@))
            } else {
                e == ObjectError::InvalidDigest
            },
        },
{
    if !is_valid_digest(tree) {
        return Err(ObjectError::InvalidDigest);
    }
    let mut v: Vec<u8> = vec![116u8, 114u8, 101u8, 101u8, 32u8];
    v.extend_from_slice(tree);
    v.push(10u8);
    match parent {
        Some(p) => {
            if !is_valid_digest(p) {
                return Err(ObjectError::InvalidDigest);
            }
            v.extend_from_slice(vec![112u8, 97u8, 114u8, 101u8, 110u8, 116u8, 32u8].as_slice());
            v.extend_from_slice(p);
            v.push(10u8);
        },
        None => {},
    }
    if find_newline(ident, 0) < ident.len() || find_newline(tz, 0) < tz.len() {
        return Err(ObjectError::Format);
    }
    let mut sig: Vec<u8> = Vec::new();
    sig.extend_from_slice(ident);
    sig.push(32u8);
    sig.extend_from_slice(encode_decimal(time).as_slice());
    sig.push(32u8);
    sig.extend_from_slice(tz);
    v.extend_from_slice(vec![97u8, 117u8, 116u8, 104u8, 111u8, 114u8, 32u8].as_slice());
    v.extend_from_slice(sig.as_slice());
    v.push(10u8);
    v.extend_from_slice(
        vec![99u8, 111u8, 109u8, 109u8, 105u8, 116u8, 116u8, 101u8, 114u8, 32u8].as_slice(),
    );
    v.extend_from_slice(sig.as_slice());
    v.push(10u8);
    v.push(10u8);
    v.extend_from_slice(message);
    assert(sig@ =~= signature(ident@, time as nat, tz@));
    assert(v@ =~= commit_text(tree@, opt_view(parent), ident@, time as nat, tz@, message@));
    proof {
        lemma_commit_text_well_formed(tree@, opt_view(parent), ident@, time as nat, tz@, message@);
    }
    Ok(v)
}

/// Computes the commit object for `tree` and an optional `parent`, with the
/// same signature for author and committer. Fails as `commit_content` does;
/// whether the named objects exist is not checked.
pub fn commit_tree(
    tree: &[u8],
    parent: Option<&[u8]>,
    ident: &[u8],
    time: u64,
    tz: &[u8],
    message: &[u8],
) -> (r: Result<StoredObject, ObjectError>)
    ensures
        match r {
            Ok(o) => {
                &&& is_hex_digest(tree@) && parent_ok(opt_view(parent))
                &&& has_no_newline(ident@) && has_no_newline(tz@)
                &&& written(
                    o@,
                    ObjectKind::Commit,
                    commit_text(tree@, opt_view(parent), ident@, time as nat, tz@, message@),
                )
                &&& is_commit(commit_text(tree@, opt_view(parent), ident@, time as nat, tz@, message@))
                &&& parent_of_text(commit_text(tree@, opt_view(parent), ident@, time as nat, tz@, message@))
                    == opt_view(parent)
            },
            Err(e) => if is_hex_digest(tree@) && parent_ok(opt_view(parent)) {
                e == ObjectError::Format && !(has_no_newline(ident@) && has_no_newline(tz@))
            } else {
                e == ObjectError::InvalidDigest
            },
        },
{
    let content = commit_content(tree, parent, ident, time, tz, message)?;
    Ok(hash_object(ObjectKind::Commit, content.as_slice()))
}

} // verus!
