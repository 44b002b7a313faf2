//! Building tree objects from a directory listing, and reading them back.
use vstd::prelude::*;
use crate::codec::ObjectKind;
use crate::error::ObjectError;
use crate::store::{
    hash_blob, hash_object, object_digest, read_object, read_of, written, StoredObject, StoredView,
};
use crate::tree::{
    decode_tree, encode_tree, entries_bytes, entries_of, entries_ok, name_ok, views, EntryMode,
    EntryView, TreeEntry,
};

verus! {

/// A directory tree as read from disk: files with their bytes, and
/// directories with their children in listing order.
#[derive(Debug)]
pub enum DirNode {
    File { name: Vec<u8>, content: Vec<u8> },
    Directory { name: Vec<u8>, children: Vec<DirNode> },
}

/// The name of the repository's own metadata directory, `.git`.
pub open spec fn root_marker() -> Seq<u8> {
    seq![46u8, 103u8, 105u8, 116u8]
}

pub open spec fn node_name(n: DirNode) -> Seq<u8> {
    match n {
        DirNode::File { name, .. } => name@,
        DirNode::Directory { name, .. } => name@,
    }
}

/// A snapshot leaves out the metadata directory, wherever it stands.
pub open spec fn skipped(n: DirNode) -> bool {
    n is Directory && node_name(n) == root_marker()
}

/// Every name in the listing, at any depth, may stand in a tree entry.
pub open spec fn nodes_ok(cs: Seq<DirNode>) -> bool
    decreases cs,
{
    if cs.len() == 0 {
        true
    } else {
        let n = cs.last();
        &&& nodes_ok(cs.drop_last())
        &&& name_ok(node_name(n))
        &&& match n {
            DirNode::Directory { children, .. } => skipped(n) || nodes_ok(children@),
            DirNode::File { .. } => true,
        }
    }
}

/// The entries of the tree for a directory listing: one per child in listing
/// order, leaving out the metadata directory; a file refers to its blob, a
/// subdirectory to the tree of its own listing.
pub open spec fn nodes_entries(cs: Seq<DirNode>) -> Seq<EntryView>
    decreases cs,
{
    if cs.len() == 0 {
        Seq::empty()
    } else {
        let n = cs.last();
        let init = nodes_entries(cs.drop_last());
        match n {
            DirNode::File { name, content } => init.push(
                EntryView {
                    mode: EntryMode::File,
                    name: name@,
                    digest: object_digest(ObjectKind::Blob, content@),
                },
            ),
            DirNode::Directory { name, children } => if name@ == root_marker() {
                init
            } else {
                init.push(
                    EntryView {
                        mode: EntryMode::Directory,
                        name: name@,
                        digest: object_digest(
                            ObjectKind::Tree,
                            entries_bytes(nodes_entries(children@)),
                        ),
                    },
                )
            },
        }
    }
}

/// The content of the tree object for a directory listing.
pub open spec fn snapshot_content(cs: Seq<DirNode>) -> Seq<u8> {
    entries_bytes(nodes_entries(cs))
}

/// The digest of the tree for a directory listing.
pub open spec fn snapshot_digest(cs: Seq<DirNode>) -> Seq<u8> {
    object_digest(ObjectKind::Tree, snapshot_content(cs))
}

pub open spec fn views_of(os: Seq<StoredObject>) -> Seq<StoredView> {
    os.map_values(|o: StoredObject| o@)
}

/// The objects (kind and content) that snapshotting the children of a
/// directory writes, in build order: a file's blob where the file stands, and
/// for a subdirectory everything its own snapshot writes, its tree last.
pub open spec fn children_objects(cs: Seq<DirNode>) -> Seq<(ObjectKind, Seq<u8>)>
    decreases cs,
{
    if cs.len() == 0 {
        Seq::empty()
    } else {
        let n = cs.last();
        let init = children_objects(cs.drop_last());
        match n {
            DirNode::File { content, .. } => init.push((ObjectKind::Blob, content@)),
            DirNode::Directory { name, children } => if name@ == root_marker() {
                init
            } else {
                init + children_objects(children@).push(
                    (ObjectKind::Tree, entries_bytes(nodes_entries(children@))),
                )
            },
        }
    }
}

/// The objects that snapshotting a directory listing writes, in build
/// order, the listing's own tree last.
pub open spec fn snapshot_objects(cs: Seq<DirNode>) -> Seq<(ObjectKind, Seq<u8>)> {
    children_objects(cs).push((ObjectKind::Tree, snapshot_content(cs)))
}

/// `os` are, one for one and in order, what writing `objs` stores.
pub open spec fn written_all(os: Seq<StoredView>, objs: Seq<(ObjectKind, Seq<u8>)>) -> bool {
    &&& os.len() == objs.len()
    &&& forall|i: int| 0 <= i < os.len() ==> written(#[trigger] os[i], objs[i].0, objs[i].1)
}

proof fn lemma_written_all_concat(
    a: Seq<StoredView>,
    s: Seq<(ObjectKind, Seq<u8>)>,
    b: Seq<StoredView>,
    t: Seq<(ObjectKind, Seq<u8>)>,
)
    requires
        written_all(a, s),
        written_all(b, t),
    ensures
        written_all(a + b, s + t),
{
    assert forall|i: int| 0 <= i < (a + b).len() implies written(#[trigger] (a + b)[i], (s + t)[i].0, (s + t)[i].1) by {
        if i >= a.len() {
            assert((a + b)[i] == b[i - a.len()]);
            assert((s + t)[i] == t[i - a.len()]);
        } else {
            assert((a + b)[i] == a[i]);
            assert((s + t)[i] == s[i]);
        }
    }
}

/// Everything written for a snapshot: its objects, the root tree last, and
/// the root tree's raw digest.
#[derive(Debug)]
pub struct TreeBuild {
    pub objects: Vec<StoredObject>,
    pub digest: Vec<u8>,
}

/// Two snapshots of a directory whose contents have not changed give the
/// same tree digest and hand over the same objects, in the same order.
pub proof fn lemma_snapshot_deterministic(
    d1: Seq<u8>,
    o1: Seq<StoredView>,
    d2: Seq<u8>,
    o2: Seq<StoredView>,
    cs: Seq<DirNode>,
)
    requires
        d1 == snapshot_digest(cs),
        written_all(o1, snapshot_objects(cs)),
        d2 == snapshot_digest(cs),
        written_all(o2, snapshot_objects(cs)),
    ensures
        d1 == d2,
        o1 == o2,
{
    assert forall|i: int| 0 <= i < o1.len() implies o1[i] == o2[i] by {
        let (k, c) = snapshot_objects(cs)[i];
        assert(written(o1[i], k, c) && written(o2[i], k, c));
    }
    assert(o1 =~= o2);
}

/// Whether a name is that of the metadata directory.
pub fn is_root_marker(name: &[u8]) -> (r: bool)
    ensures
        r == (name@ == root_marker()),
{
    let marker = vec![46u8, 103u8, 105u8, 116u8];
    let r = crate::codec::bytes_equal(name, marker.as_slice());
    assert(marker@ =~= root_marker());
    r
}

fn copy_bytes(b: &[u8]) -> (r: Vec<u8>)
    ensures
        r@ == b@,
{
    let mut r: Vec<u8> = Vec::new();
    r.extend_from_slice(b);
    assert(r@ =~= b@);
    r
}

/// Builds the objects of a directory listing, subdirectories first, and
/// appends them to `out`, the listing's own tree last. Returns its digest.
fn build_objects(children: &Vec<DirNode>, out: &mut Vec<StoredObject>) -> (r: Vec<u8>)
    requires
        nodes_ok(children@),
    ensures
        r@ == snapshot_digest(children@),
        r@.len() == 20,
        final(out)@.len() >= old(out)@.len(),
        views_of(final(out)@).subrange(0, old(out)@.len() as int) == views_of(old(out)@),
        written_all(
            views_of(final(out)@).subrange(old(out)@.len() as int, final(out)@.len() as int),
            snapshot_objects(children@),
        ),
    decreases children@,
{
    let ghost start = views_of(out@);
    let ghost seg: Seq<StoredView> = Seq::empty();
    let mut entries: Vec<TreeEntry> = Vec::new();
    let mut i: usize = 0;
    assert(views_of(out@) =~= start + seg);
    assert(children@.subrange(0, 0) =~= Seq::<DirNode>::empty());
    while i < children.len()
        invariant
            i <= children.len(),
            nodes_ok(children@),
            entries_ok(views(entries@)),
            views(entries@) == nodes_entries(children@.subrange(0, i as int)),
            start == views_of(old(out)@),
            views_of(out@) == start + seg,
            written_all(seg, children_objects(children@.subrange(0, i as int))),
        decreases children.len() - i,
    {
        let ghost prefix = children@.subrange(0, i as int);
        let ghost next = children@.subrange(0, i + 1);
        assert(next.drop_last() =~= prefix);
        assert(next.last() == children@[i as int]);
        proof {
            lemma_nodes_ok_at(children@, i as int);
        }
        let ghost before = views(entries@);
        match &children[i] {
            DirNode::File { name, content } => {
                let blob = hash_blob(content.as_slice());
                let e = TreeEntry {
                    mode: EntryMode::File,
                    name: copy_bytes(name.as_slice()),
                    digest: copy_bytes(blob.digest.as_slice()),
                };
                entries.push(e);
                assert(views(entries@) =~= before.push(e@));
                let ghost out_before = views_of(out@);
                out.push(blob);
                assert(views_of(out@) =~= out_before.push(blob@));
                proof {
                    let one = seq![blob@];
                    assert(written_all(one, seq![(ObjectKind::Blob, content@)]));
                    lemma_written_all_concat(seg, children_objects(prefix), one, seq![(ObjectKind::Blob, content@)]);
                    assert(children_objects(prefix) + seq![(ObjectKind::Blob, content@)]
                        =~= children_objects(next));
                    seg = seg + one;
                    assert(views_of(out@) =~= start + seg);
                }
            },
            DirNode::Directory { name, children: grand } => {
                if !is_root_marker(name.as_slice()) {
                    assert(decreases_to!(children@ => grand@)) by {
                        assert(decreases_to!(children@ => children@[i as int]));
                    }
                    let ghost mid = out@;
                    let d = build_objects(grand, out);
                    proof {
                        let added = views_of(out@).subrange(mid.len() as int, out@.len() as int);
                        lemma_written_all_concat(seg, children_objects(prefix), added, snapshot_objects(grand@));
                        assert(views_of(out@) =~= views_of(out@).subrange(0, mid.len() as int) + added);
                        seg = seg + added;
                        assert(views_of(out@) =~= start + seg);
                    }
                    let e = TreeEntry {
                        mode: EntryMode::Directory,
                        name: copy_bytes(name.as_slice()),
                        digest: d,
                    };
                    entries.push(e);
                    assert(views(entries@) =~= before.push(e@));
                } else {
                    assert(children_objects(next) == children_objects(prefix));
                }
            },
        }
        i += 1;
    }
    assert(children@.subrange(0, children.len() as int) =~= children@);
    let content = encode_tree(&entries);
    let tree = hash_object(ObjectKind::Tree, content.as_slice());
    let digest = copy_bytes(tree.digest.as_slice());
    let ghost out_before = views_of(out@);
    out.push(tree);
    assert(views_of(out@) =~= out_before.push(tree@));
    proof {
        let one = seq![tree@];
        assert(written_all(one, seq![(ObjectKind::Tree, content@)]));
        lemma_written_all_concat(seg, children_objects(children@), one, seq![(ObjectKind::Tree, content@)]);
        assert(children_objects(children@) + seq![(ObjectKind::Tree, content@)]
            =~= snapshot_objects(children@));
        assert(views_of(out@).subrange(0, start.len() as int) =~= start);
        assert(views_of(out@).subrange(start.len() as int, out@.len() as int) =~= seg + one);
    }
    digest
}

proof fn lemma_nodes_ok_at(cs: Seq<DirNode>, i: int)
    requires
        nodes_ok(cs),
        0 <= i < cs.len(),
    ensures
        name_ok(node_name(cs[i])),
        cs[i] is Directory && !skipped(cs[i]) ==> nodes_ok(cs[i]->children@),
    decreases cs.len(),
{
    if i < cs.len() - 1 {
        lemma_nodes_ok_at(cs.drop_last(), i);
        assert(cs.drop_last()[i] == cs[i]);
    }
}

/// Snapshots a directory listing: a blob for every file and a tree for
/// every directory, at any depth, leaving out the metadata directory. The
/// objects come in build order, each directory's tree right after its
/// contents, the root tree last; its digest is returned with them.
pub fn write_tree(root: &Vec<DirNode>) -> (r: TreeBuild)
    requires
        nodes_ok(root@),
    ensures
        r.digest@ == snapshot_digest(root@),
        written_all(views_of(r.objects@), snapshot_objects(root@)),
{
    let mut objects: Vec<StoredObject> = Vec::new();
    let digest = build_objects(root, &mut objects);
    assert(views_of(objects@).subrange(0, objects@.len() as int) =~= views_of(objects@));
    TreeBuild { objects, digest }
}

/// The entries that a stored tree object holds, if it holds one.
pub open spec fn tree_of(stored: Seq<u8>) -> Option<Seq<EntryView>> {
    match read_of(stored) {
        Some((k, c)) => if k == ObjectKind::Tree {
            entries_of(c)
        } else {
            None
        },
        None => None,
    }
}

/// Reads the entries of a stored tree object, in stored order. Fails with
/// `Format` exactly when the bytes do not decompress to a well-formed tree.
pub fn parse_tree_object(stored: &[u8]) -> (r: Result<Vec<TreeEntry>, ObjectError>)
    ensures
        match r {
            Ok(es) => tree_of(stored@) == Some(views(es@)),
            Err(e) => e == ObjectError::Format && tree_of(stored@) is None,
        },
{
    match read_object(stored) {
        Ok((k, content)) => {
            if k != ObjectKind::Tree {
                return Err(ObjectError::Format);
            }
            decode_tree(content.as_slice())
        },
        Err(e) => Err(e),
    }
}

} // verus!
