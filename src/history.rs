//! Following parent links from a commit back to the root of its history.
use vstd::prelude::*;
use crate::codec::{bytes_equal, ObjectKind};
use crate::commit::{
    commit_layout, fields_ok, is_commit, parent_of_text, parent_view, parse_commit, CommitRecord,
};
use crate::error::ObjectError;
use crate::store::{lemma_write_read_round_trip, read_object, read_of, written, StoredView};

verus! {

/// The commit text that stored bytes hold, if they hold a well-formed commit.
pub open spec fn commit_of(stored: Seq<u8>) -> Option<Seq<u8>> {
    match read_of(stored) {
        Some((k, c)) => if k == ObjectKind::Commit && is_commit(c) {
            Some(c)
        } else {
            None
        },
        None => None,
    }
}

pub open spec fn record_text(rec: CommitRecord) -> Seq<u8> {
    commit_layout(rec.tree@, parent_view(rec.parent), rec.author@, rec.committer@, rec.message@)
}

/// A walk through history: the digests of the commits read so far, in order.
#[derive(Debug)]
pub struct HistoryWalk {
    pub visited: Vec<Vec<u8>>,
}

pub open spec fn seen(w: HistoryWalk) -> Seq<Seq<u8>> {
    w.visited@.map_values(|d: Vec<u8>| d@)
}

/// Whether `d` is among `ds`.
fn contains_digest(ds: &Vec<Vec<u8>>, d: &[u8]) -> (r: bool)
    ensures
        r == ds@.map_values(|x: Vec<u8>| x@).contains(d@),
{
    let ghost vs = ds@.map_values(|x: Vec<u8>| x@);
    let mut i: usize = 0;
    while i < ds.len()
        invariant
            i <= ds.len(),
            vs == ds@.map_values(|x: Vec<u8>| x@),
            forall|j: int| 0 <= j < i ==> vs[j] != d@,
        decreases ds.len() - i,
    {
        if bytes_equal(ds[i].as_slice(), d) {
            assert(vs[i as int] == d@);
            return true;
        }
        i += 1;
    }
    false
}

impl HistoryWalk {
    pub fn new() -> (r: HistoryWalk)
        ensures
            seen(r).len() == 0,
    {
        HistoryWalk { visited: Vec::new() }
    }

    /// Takes in the stored bytes of the commit named `digest`. On success the
    /// digest joins those seen and the commit's fields come back; its parent,
    /// if any, is the next digest to read, and has not been seen. Fails with
    /// `Format`, seeing nothing new, when the bytes are not a commit or when
    /// its parent was already seen, which would make the walk loop.
    pub fn step(&mut self, digest: &[u8], stored: &[u8]) -> (r: Result<CommitRecord, ObjectError>)
        ensures
            match r {
                Ok(rec) => {
                    &&& commit_of(stored@) == Some(record_text(rec))
                    &&& parent_view(rec.parent) == parent_of_text(record_text(rec))
                    &&& fields_ok(rec.tree@, parent_view(rec.parent), rec.author@, rec.committer@)
                    &&& seen(*final(self)) == seen(*old(self)).push(digest@)
                    &&& rec.parent is Some ==> !seen(*final(self)).contains(rec.parent->0@)
                },
                Err(e) => {
                    &&& e == ObjectError::Format
                    &&& seen(*final(self)) == seen(*old(self))
                    &&& (commit_of(stored@) is None || exists|rec: CommitRecord|
                        fields_ok(rec.tree@, parent_view(rec.parent), rec.author@, rec.committer@)
                            && commit_of(stored@) == Some(record_text(rec)) && rec.parent is Some
                            && seen(*old(self)).push(digest@).contains(rec.parent->0@))
                },
            },
    {
        let (k, content) = match read_object(stored) {
            Ok(obj) => obj,
            Err(e) => return Err(e),
        };
        if k != ObjectKind::Commit {
            return Err(ObjectError::Format);
        }
        let rec = match parse_commit(content.as_slice()) {
            Ok(rec) => rec,
            Err(e) => return Err(e),
        };
        assert(is_commit(content@));
        let ghost before = seen(*self);
        let mut own: Vec<u8> = Vec::new();
        own.extend_from_slice(digest);
        assert(own@ =~= digest@);
        let ghost visited_before = self.visited@;
        self.visited.push(own);
        assert(self.visited@ == visited_before.push(own));
        assert(seen(*self) =~= before.push(digest@));
        match &rec.parent {
            Some(p) => {
                if contains_digest(&self.visited, p.as_slice()) {
                    let ghost after = self.visited@;
                    self.visited.pop();
                    assert(self.visited@ =~= after.drop_last());
                    assert(self.visited@ =~= visited_before);
                    assert(seen(*self) =~= before);
                    assert(record_text(rec) == content@);
                    assert(fields_ok(rec.tree@, parent_view(rec.parent), rec.author@, rec.committer@)
                        && commit_of(stored@) == Some(record_text(rec)) && rec.parent is Some
                        && before.push(digest@).contains(rec.parent->0@));
                    return Err(ObjectError::Format);
                }
            },
            None => {},
        }
        Ok(rec)
    }
}

/// The digest to read after a commit: its parent, or nothing at the root.
pub fn next_commit(rec: &CommitRecord) -> (r: Option<Vec<u8>>)
    ensures
        parent_view(r) == parent_view(rec.parent),
{
    match &rec.parent {
        Some(p) => {
            let mut d: Vec<u8> = Vec::new();
            d.extend_from_slice(p.as_slice());
            assert(d@ =~= p@);
            Some(d)
        },
        None => None,
    }
}

/// The digests a walk visits when each commit is read from `store` (digest
/// to stored bytes), starting at `start` and reading at most `fuel` commits:
/// it goes on to the parent that each commit names, and stops at one that
/// names none or at one that cannot be read.
pub open spec fn history(store: Map<Seq<u8>, Seq<u8>>, start: Seq<u8>, fuel: nat) -> Seq<Seq<u8>>
    decreases fuel,
{
    if fuel == 0 || !store.dom().contains(start) || commit_of(store[start]) is None {
        Seq::empty()
    } else {
        match parent_of_text(commit_of(store[start])->0) {
            Some(p) => seq![start] + history(store, p, (fuel - 1) as nat),
            None => seq![start],
        }
    }
}

/// The parent named by the commit stored under `d`.
pub open spec fn stored_parent(store: Map<Seq<u8>, Seq<u8>>, d: Seq<u8>) -> Option<Seq<u8>> {
    parent_of_text(commit_of(store[d])->0)
}

/// A chain of `n` commits, each naming the one before it as parent and the
/// first naming none, is walked from the last in exactly `n` records, newest
/// first, ending at the commit without a parent.
pub proof fn lemma_chain_walk(store: Map<Seq<u8>, Seq<u8>>, chain: Seq<Seq<u8>>, n: nat)
    requires
        chain.len() == n,
        n >= 1,
        forall|i: int| 0 <= i < n ==> store.dom().contains(#[trigger] chain[i]) && commit_of(store[chain[i]]) is Some,
        stored_parent(store, chain[0]) is None,
        forall|i: int| 1 <= i < n ==> stored_parent(store, #[trigger] chain[i]) == Some(chain[i - 1]),
    ensures
        history(store, chain[n - 1], n).len() == n,
        forall|j: int| 0 <= j < n ==> #[trigger] history(store, chain[n - 1], n)[j] == chain[n - 1 - j],
        stored_parent(store, history(store, chain[n - 1], n)[n - 1]) is None,
    decreases n,
{
    if n > 1 {
        let shorter = chain.subrange(0, n - 1);
        assert forall|i: int| 1 <= i < n - 1 implies stored_parent(store, #[trigger] shorter[i]) == Some(shorter[i - 1]) by {
            assert(shorter[i] == chain[i]);
        }
        assert forall|i: int| 0 <= i < n - 1 implies store.dom().contains(#[trigger] shorter[i]) && commit_of(store[shorter[i]]) is Some by {
            assert(shorter[i] == chain[i]);
        }
        lemma_chain_walk(store, shorter, (n - 1) as nat);
        let h = history(store, chain[n - 1], n);
        let t = history(store, shorter[n - 2], (n - 1) as nat);
        assert(store.dom().contains(chain[n - 1]));
        assert(h == seq![chain[n - 1]] + t);
        assert forall|j: int| 0 <= j < n implies #[trigger] h[j] == chain[n - 1 - j] by {
            if j > 0 {
                assert(h[j] == t[j - 1]);
            }
        }
    } else {
        assert(store.dom().contains(chain[0]));
    }
}

/// Commits as `commit_tree` stores them, each naming the one before it as
/// parent and the first naming none, kept under their hex names: the walk
/// from the last reads all `n` of them, newest first, and ends at the first.
pub proof fn lemma_commit_chain_walk(
    store: Map<Seq<u8>, Seq<u8>>,
    os: Seq<StoredView>,
    texts: Seq<Seq<u8>>,
    n: nat,
)
    requires
        os.len() == n,
        texts.len() == n,
        n >= 1,
        forall|i: int| 0 <= i < n ==> written(#[trigger] os[i], ObjectKind::Commit, texts[i]),
        forall|i: int| 0 <= i < n ==> is_commit(#[trigger] texts[i]),
        forall|i: int| 0 <= i < n ==> store.dom().contains((#[trigger] os[i]).hex) && store[os[i].hex] == os[i].bytes,
        parent_of_text(texts[0]) is None,
        forall|i: int| 1 <= i < n ==> parent_of_text(#[trigger] texts[i]) == Some(os[i - 1].hex),
    ensures
        history(store, os[n - 1].hex, n).len() == n,
        forall|j: int| 0 <= j < n ==> #[trigger] history(store, os[n - 1].hex, n)[j] == os[n - 1 - j].hex,
        stored_parent(store, history(store, os[n - 1].hex, n)[n - 1]) is None,
{
    let chain = os.map_values(|o: StoredView| o.hex);
    assert forall|i: int| 0 <= i < n implies store.dom().contains(#[trigger] chain[i]) && commit_of(store[chain[i]]) == Some(texts[i]) by {
        assert(chain[i] == os[i].hex);
        assert(written(os[i], ObjectKind::Commit, texts[i]));
        assert(is_commit(texts[i]));
        lemma_write_read_round_trip(os[i], ObjectKind::Commit, texts[i]);
    }
    assert(commit_of(store[chain[0]]) == Some(texts[0]));
    assert forall|i: int| 1 <= i < n implies stored_parent(store, #[trigger] chain[i]) == Some(chain[i - 1]) by {
        assert(commit_of(store[chain[i]]) == Some(texts[i]));
        assert(parent_of_text(texts[i]) == Some(os[i - 1].hex));
    }
    lemma_chain_walk(store, chain, n);
    assert(chain[n - 1] == os[n - 1].hex);
    assert forall|j: int| 0 <= j < n implies #[trigger] history(store, os[n - 1].hex, n)[j] == os[n - 1 - j].hex by {
        assert(history(store, chain[n - 1], n)[j] == chain[n - 1 - j]);
    }
}

} // verus!
