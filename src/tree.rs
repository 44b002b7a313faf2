//! Tree objects: a sequence of entries `"<mode> <name>\0<20-byte digest>"`.
use vstd::prelude::*;
use vstd::slice::slice_subrange;
use crate::codec::bytes_equal;
use crate::error::ObjectError;

verus! {

/// Length of a raw SHA-1 digest in bytes.
pub const DIGEST_LEN: usize = 20;

/// What a tree entry refers to: a file (blob) or a directory (tree).
#[derive(PartialEq, Eq, Structural, Clone, Copy, Debug)]
pub enum EntryMode {
    File,
    Directory,
}

/// `"100644"` for a file, `"040000"` for a directory.
pub open spec fn mode_name(m: EntryMode) -> Seq<u8> {
    match m {
        EntryMode::File => seq![49u8, 48u8, 48u8, 54u8, 52u8, 52u8],
        EntryMode::Directory => seq![48u8, 52u8, 48u8, 48u8, 48u8, 48u8],
    }
}

/// One record of a tree: mode, name and the raw digest of the child object.
#[derive(Debug)]
pub struct TreeEntry {
    pub mode: EntryMode,
    pub name: Vec<u8>,
    pub digest: Vec<u8>,
}

pub struct EntryView {
    pub mode: EntryMode,
    pub name: Seq<u8>,
    pub digest: Seq<u8>,
}

impl View for TreeEntry {
    type V = EntryView;

    open spec fn view(&self) -> EntryView {
        EntryView { mode: self.mode, name: self.name@, digest: self.digest@ }
    }
}

/// A name is non-empty and holds neither a NUL nor a path separator.
pub open spec fn name_ok(name: Seq<u8>) -> bool {
    &&& name.len() > 0
    &&& forall|i: int| 0 <= i < name.len() ==> name[i] != 0u8 && name[i] != 47u8
}

pub open spec fn entry_ok(e: EntryView) -> bool {
    name_ok(e.name) && e.digest.len() == DIGEST_LEN
}

pub open spec fn entries_ok(es: Seq<EntryView>) -> bool {
    forall|i: int| 0 <= i < es.len() ==> entry_ok(#[trigger] es[i])
}

pub open spec fn entry_bytes(e: EntryView) -> Seq<u8> {
    mode_name(e.mode) + seq![32u8] + e.name + seq![0u8] + e.digest
}

/// The content of a tree object holding `es`, in order, with nothing between.
pub open spec fn entries_bytes(es: Seq<EntryView>) -> Seq<u8>
    decreases es.len(),
{
    if es.len() == 0 {
        Seq::empty()
    } else {
        entry_bytes(es[0]) + entries_bytes(es.drop_first())
    }
}

/// The entries that a tree content encodes, if it encodes any.
pub open spec fn entries_of(b: Seq<u8>) -> Option<Seq<EntryView>> {
    if exists|es: Seq<EntryView>| entries_ok(es) && entries_bytes(es) == b {
        Some(choose|es: Seq<EntryView>| entries_ok(es) && entries_bytes(es) == b)
    } else {
        None
    }
}

pub open spec fn views(es: Seq<TreeEntry>) -> Seq<EntryView> {
    es.map_values(|e: TreeEntry| e@)
}

proof fn lemma_entry_layout(e: EntryView, s: Seq<u8>)
    requires
        entry_ok(e),
    ensures
        ({
            let x = entry_bytes(e) + s;
            let n = e.name.len() as int;
            &&& x.len() == 28 + n + s.len()
            &&& x.subrange(0, 6) == mode_name(e.mode)
            &&& x[6] == 32u8
            &&& x.subrange(7, 7 + n) == e.name
            &&& forall|j: int| 7 <= j < 7 + n ==> x[j] != 0u8 && x[j] != 47u8
            &&& x[7 + n] == 0u8
            &&& x.subrange(8 + n, 28 + n) == e.digest
            &&& x.subrange(28 + n, x.len() as int) == s
        }),
{
    let x = entry_bytes(e) + s;
    let n = e.name.len() as int;
    assert(x.subrange(0, 6) =~= mode_name(e.mode));
    assert(x.subrange(7, 7 + n) =~= e.name);
    assert(x.subrange(8 + n, 28 + n) =~= e.digest);
    assert(x.subrange(28 + n, x.len() as int) =~= s);
    assert forall|j: int| 7 <= j < 7 + n implies x[j] != 0u8 && x[j] != 47u8 by {
        assert(x[j] == e.name[j - 7]);
    }
}

/// An entry followed by anything is read back as that entry.
proof fn lemma_entry_unique(e1: EntryView, s1: Seq<u8>, e2: EntryView, s2: Seq<u8>)
    requires
        entry_ok(e1),
        entry_ok(e2),
        entry_bytes(e1) + s1 == entry_bytes(e2) + s2,
    ensures
        e1 == e2,
        s1 == s2,
{
    let x = entry_bytes(e1) + s1;
    lemma_entry_layout(e1, s1);
    lemma_entry_layout(e2, s2);
    let n1 = e1.name.len() as int;
    let n2 = e2.name.len() as int;
    if n1 < n2 {
        assert(x[7 + n1] == 0u8);
    } else if n2 < n1 {
        assert(x[7 + n2] == 0u8);
    }
    assert(mode_name(e1.mode) == mode_name(e2.mode));
    if e1.mode != e2.mode {
        assert(mode_name(e1.mode)[0] != mode_name(e2.mode)[0]);
    }
}

proof fn lemma_entries_bytes_push(es: Seq<EntryView>, e: EntryView)
    ensures
        entries_bytes(es.push(e)) == entries_bytes(es) + entry_bytes(e),
    decreases es.len(),
{
    if es.len() == 0 {
        assert(es.push(e).drop_first() =~= Seq::<EntryView>::empty());
        assert(es.push(e)[0] == e);
        assert(entries_bytes(es.push(e).drop_first()) == Seq::<u8>::empty());
        assert(entries_bytes(es.push(e)) =~= entry_bytes(e));
    } else {
        assert(es.push(e).drop_first() =~= es.drop_first().push(e));
        lemma_entries_bytes_push(es.drop_first(), e);
        assert(entries_bytes(es.push(e)) =~= entries_bytes(es) + entry_bytes(e));
    }
}

/// If a valid list encodes to the encoding of a valid prefix followed by a
/// non-empty rest, that rest starts with a valid entry.
proof fn lemma_rest_starts_with_entry(es: Seq<EntryView>, acc: Seq<EntryView>, rest: Seq<u8>)
    requires
        entries_ok(es),
        entries_ok(acc),
        entries_bytes(es) == entries_bytes(acc) + rest,
        rest.len() > 0,
    ensures
        exists|e: EntryView, s: Seq<u8>| entry_ok(e) && rest == entry_bytes(e) + s,
    decreases acc.len(),
{
    if es.len() == 0 {
        assert((entries_bytes(acc) + rest).len() > 0);
    } else if acc.len() == 0 {
        assert(entries_bytes(acc) + rest =~= rest);
        assert(entry_ok(es[0]));
        assert(rest == entry_bytes(es[0]) + entries_bytes(es.drop_first()));
    } else {
        assert(entry_ok(es[0]) && entry_ok(acc[0]));
        assert(entry_bytes(acc[0]) + (entries_bytes(acc.drop_first()) + rest)
            =~= entries_bytes(acc) + rest);
        lemma_entry_unique(es[0], entries_bytes(es.drop_first()), acc[0],
            entries_bytes(acc.drop_first()) + rest);
        assert(entries_ok(es.drop_first()));
        assert(entries_ok(acc.drop_first()));
        lemma_rest_starts_with_entry(es.drop_first(), acc.drop_first(), rest);
    }
}

/// The encoding of a valid entry list determines the list.
pub proof fn lemma_entries_injective(a: Seq<EntryView>, b: Seq<EntryView>)
    requires
        entries_ok(a),
        entries_ok(b),
        entries_bytes(a) == entries_bytes(b),
    ensures
        a == b,
    decreases a.len(),
{
    if a.len() == 0 || b.len() == 0 {
        if a.len() > 0 {
            assert(entries_bytes(a).len() > 0);
        }
        if b.len() > 0 {
            assert(entries_bytes(b).len() > 0);
        }
        assert(a =~= b);
    } else {
        assert(entry_ok(a[0]) && entry_ok(b[0]));
        lemma_entry_unique(a[0], entries_bytes(a.drop_first()), b[0], entries_bytes(b.drop_first()));
        assert(entries_ok(a.drop_first()));
        assert(entries_ok(b.drop_first()));
        lemma_entries_injective(a.drop_first(), b.drop_first());
        assert(a =~= seq![a[0]] + a.drop_first());
        assert(b =~= seq![b[0]] + b.drop_first());
    }
}

/// Decoding the encoding of a valid entry list gives back the same entries,
/// in the same order.
pub proof fn lemma_tree_round_trip(es: Seq<EntryView>)
    requires
        entries_ok(es),
    ensures
        entries_of(entries_bytes(es)) == Some(es),
{
    let b = entries_bytes(es);
    let other = choose|x: Seq<EntryView>| entries_ok(x) && entries_bytes(x) == b;
    lemma_entries_injective(other, es);
}

/// The six ASCII bytes of a mode.
pub fn mode_bytes(m: EntryMode) -> (r: Vec<u8>)
    ensures
        r@ == mode_name(m),
{
    let r = match m {
        EntryMode::File => vec![49u8, 48u8, 48u8, 54u8, 52u8, 52u8],
        EntryMode::Directory => vec![48u8, 52u8, 48u8, 48u8, 48u8, 48u8],
    };
    assert(r@ =~= mode_name(m));
    r
}

/// Whether `name` may stand as the name of an entry.
pub fn is_valid_name(name: &[u8]) -> (r: bool)
    ensures
        r == name_ok(name@),
{
    if name.len() == 0 {
        return false;
    }
    let mut i: usize = 0;
    while i < name.len()
        invariant
            i <= name.len(),
            forall|j: int| 0 <= j < i ==> name@[j] != 0u8 && name@[j] != 47u8,
        decreases name.len() - i,
    {
        if name[i] == 0u8 || name[i] == 47u8 {
            return false;
        }
        i += 1;
    }
    true
}

/// Encodes the entries of a tree, in the given order.
pub fn encode_tree(entries: &Vec<TreeEntry>) -> (r: Vec<u8>)
    ensures
        r@ == entries_bytes(views(entries@)),
{
    let mut r: Vec<u8> = Vec::new();
    let mut i: usize = 0;
    while i < entries.len()
        invariant
            i <= entries.len(),
            r@ == entries_bytes(views(entries@.subrange(0, i as int))),
        decreases entries.len() - i,
    {
        let e = &entries[i];
        let ghost before = r@;
        r.extend_from_slice(mode_bytes(e.mode).as_slice());
        r.push(32u8);
        r.extend_from_slice(e.name.as_slice());
        r.push(0u8);
        r.extend_from_slice(e.digest.as_slice());
        proof {
            let prefix = views(entries@.subrange(0, i as int));
            assert(views(entries@.subrange(0, i + 1)) =~= prefix.push(e@));
            lemma_entries_bytes_push(prefix, e@);
            assert(r@ =~= before + entry_bytes(e@));
        }
        i += 1;
    }
    assert(entries@.subrange(0, entries.len() as int) =~= entries@);
    r
}

/// Reads one entry that starts at `off`, returning it and the offset just
/// past it; `None` when no valid entry starts there.
fn parse_entry(b: &[u8], off: usize) -> (r: Option<(TreeEntry, usize)>)
    requires
        off <= b.len(),
    ensures
        match r {
            Some((e, end)) => off < end <= b.len() && entry_ok(e@) && b@.subrange(off as int, end as int)
                == entry_bytes(e@),
            None => forall|e: EntryView, s: Seq<u8>|
                entry_ok(e) ==> b@.subrange(off as int, b.len() as int) != entry_bytes(e) + s,
        },
{
    let ghost rest = b@.subrange(off as int, b.len() as int);
    if b.len() - off < 7 {
        assert forall|e: EntryView, s: Seq<u8>| entry_ok(e) implies rest != entry_bytes(e) + s by {
            lemma_entry_layout(e, s);
        }
        return None;
    }
    let mode_slice = slice_subrange(b, off, off + 6);
    let mode = if bytes_equal(mode_slice, mode_bytes(EntryMode::File).as_slice()) {
        Some(EntryMode::File)
    } else if bytes_equal(mode_slice, mode_bytes(EntryMode::Directory).as_slice()) {
        Some(EntryMode::Directory)
    } else {
        None
    };
    let mode = match mode {
        Some(m) if b[off + 6] == 32u8 => m,
        _ => {
            assert forall|e: EntryView, s: Seq<u8>| entry_ok(e) implies rest != entry_bytes(e) + s by {
                lemma_entry_layout(e, s);
                if rest == entry_bytes(e) + s {
                    assert(mode_slice@ =~= rest.subrange(0, 6));
                    assert(b@[off + 6] == rest[6]);
                }
            }
            return None;
        },
    };
    let mut z: usize = off + 7;
    while z < b.len() && b[z] != 0u8
        invariant
            off + 7 <= z <= b.len(),
            forall|j: int| off + 7 <= j < z ==> b@[j] != 0u8,
        decreases b.len() - z,
    {
        z += 1;
    }
    let name = slice_subrange(b, off + 7, z);
    if z == b.len() || !is_valid_name(name) || b.len() - z - 1 < DIGEST_LEN {
        assert forall|e: EntryView, s: Seq<u8>| entry_ok(e) implies rest != entry_bytes(e) + s by {
            lemma_entry_layout(e, s);
            if rest == entry_bytes(e) + s {
                let n = e.name.len() as int;
                assert(b@[off + 7 + n] == rest[7 + n]);
                if z < off + 7 + n {
                    assert(b@[z as int] == rest[z - off]);
                }
                assert(z == off + 7 + n);
                assert(name@ =~= rest.subrange(7, 7 + n));
            }
        }
        return None;
    }
    let mut digest: Vec<u8> = Vec::new();
    digest.extend_from_slice(slice_subrange(b, z + 1, z + 1 + DIGEST_LEN));
    let mut name_vec: Vec<u8> = Vec::new();
    name_vec.extend_from_slice(name);
    let e = TreeEntry { mode, name: name_vec, digest };
    let end = z + 1 + DIGEST_LEN;
    assert(b@.subrange(off as int, end as int) =~= entry_bytes(e@));
    Some((e, end))
}

/// Decodes the content of a tree object. Fails with `Format` exactly when the
/// bytes are not the encoding of any list of valid entries: a bad mode, a
/// missing NUL, a bad name, or a short or trailing digest.
pub fn decode_tree(b: &[u8]) -> (r: Result<Vec<TreeEntry>, ObjectError>)
    ensures
        match r {
            Ok(es) => entries_ok(views(es@)) && entries_bytes(views(es@)) == b@
                && entries_of(b@) == Some(views(es@)),
            Err(e) => e == ObjectError::Format && entries_of(b@) is None,
        },
{
    let mut acc: Vec<TreeEntry> = Vec::new();
    let mut off: usize = 0;
    while off < b.len()
        invariant
            off <= b.len(),
            entries_ok(views(acc@)),
            entries_bytes(views(acc@)) == b@.subrange(0, off as int),
        decreases b.len() - off,
    {
        match parse_entry(b, off) {
            Some((e, end)) => {
                proof {
                    lemma_entries_bytes_push(views(acc@), e@);
                    assert(b@.subrange(0, end as int) =~= b@.subrange(0, off as int)
                        + b@.subrange(off as int, end as int));
                }
                let ghost prev = views(acc@);
                let ghost ev = e@;
                acc.push(e);
                assert(views(acc@) =~= prev.push(ev));
                off = end;
            },
            None => {
                proof {
                    assert forall|es: Seq<EntryView>| entries_ok(es) implies entries_bytes(es) != b@ by {
                        let rest = b@.subrange(off as int, b.len() as int);
                        if entries_bytes(es) == b@ {
                            assert(b@ =~= entries_bytes(views(acc@)) + rest);
                            lemma_rest_starts_with_entry(es, views(acc@), rest);
                        }
                    }
                }
                return Err(ObjectError::Format);
            },
        }
    }
    assert(b@.subrange(0, b.len() as int) =~= b@);
    proof {
        lemma_tree_round_trip(views(acc@));
    }
    Ok(acc)
}

} // verus!
