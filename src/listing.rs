//! Depth-first, pre-order listing of a tree: each directory's entries come
//! right after the directory entry itself, before its later siblings.
use vstd::prelude::*;
use crate::hashing::hex_of;
use crate::store::digest_to_hex;
use crate::tree::{views, EntryMode, EntryView, TreeEntry};

verus! {

/// Entries of one tree still to be listed, at one depth; the next one is last.
#[derive(Debug)]
pub struct ListFrame {
    pub depth: usize,
    pub rest: Vec<TreeEntry>,
}

/// A listing in progress: a stack of frames, the innermost last.
#[derive(Debug)]
pub struct TreeListing {
    pub stack: Vec<ListFrame>,
}

/// Entries tagged with their depth, in listing order.
pub open spec fn tagged(depth: usize, es: Seq<EntryView>) -> Seq<(usize, EntryView)> {
    es.map_values(|e: EntryView| (depth, e))
}

/// What a frame still has to list, in order.
pub open spec fn frame_items(depth: usize, rest: Seq<TreeEntry>) -> Seq<(usize, EntryView)>
    decreases rest.len(),
{
    if rest.len() == 0 {
        Seq::empty()
    } else {
        seq![(depth, rest.last()@)] + frame_items(depth, rest.drop_last())
    }
}

/// What a stack of frames still has to list, innermost frame first.
pub open spec fn stack_items(stack: Seq<ListFrame>) -> Seq<(usize, EntryView)>
    decreases stack.len(),
{
    if stack.len() == 0 {
        Seq::empty()
    } else {
        frame_items(stack.last().depth, stack.last().rest@) + stack_items(stack.drop_last())
    }
}

impl TreeListing {
    /// The entries still to be listed, with their depths, in order.
    pub open spec fn pending(&self) -> Seq<(usize, EntryView)> {
        stack_items(self.stack@)
    }

    /// A listing of a root tree's entries, at depth 0.
    pub fn new(entries: Vec<TreeEntry>) -> (r: TreeListing)
        ensures
            r.pending() == tagged(0, views(entries@)),
    {
        let mut r = TreeListing { stack: Vec::new() };
        r.descend(0, entries);
        assert(stack_items(Seq::<ListFrame>::empty()) == Seq::<(usize, EntryView)>::empty());
        assert(tagged(0, views(entries@)) + Seq::<(usize, EntryView)>::empty() =~= tagged(0, views(entries@)));
        r
    }

    /// Puts a subtree's entries, at `depth`, ahead of everything still pending.
    pub fn descend(&mut self, depth: usize, entries: Vec<TreeEntry>)
        ensures
            final(self).pending() == tagged(depth, views(entries@)) + old(self).pending(),
    {
        let ghost orig = entries@;
        let mut entries = entries;
        let mut rev: Vec<TreeEntry> = Vec::new();
        while entries.len() > 0
            invariant
                entries@ == orig.subrange(0, entries@.len() as int),
                entries@.len() <= orig.len(),
                frame_items(depth, rev@) == tagged(depth, views(orig.subrange(entries@.len() as int, orig.len() as int))),
            decreases entries.len(),
        {
            let ghost k = entries@.len() as int;
            let e = entries.pop().unwrap();
            let ghost rev_before = rev@;
            rev.push(e);
            assert(rev@.drop_last() =~= rev_before);
            assert(views(orig.subrange(k - 1, orig.len() as int)) =~= seq![e@] + views(orig.subrange(k, orig.len() as int)));
            assert(tagged(depth, views(orig.subrange(k - 1, orig.len() as int))) =~= seq![(depth, e@)] + tagged(depth, views(orig.subrange(k, orig.len() as int))));
            assert(entries@ =~= orig.subrange(0, entries@.len() as int));
        }
        assert(orig.subrange(0, orig.len() as int) =~= orig);
        let ghost stack_before = self.stack@;
        self.stack.push(ListFrame { depth, rest: rev });
        assert(self.stack@.drop_last() =~= stack_before);
    }

    /// The next entry in pre-order with its depth, or `None` when the listing is done.
    pub fn next(&mut self) -> (r: Option<(usize, TreeEntry)>)
        ensures
            match r {
                Some((d, e)) => old(self).pending().len() > 0 && old(self).pending()[0] == (d, e@)
                    && final(self).pending() == old(self).pending().drop_first(),
                None => old(self).pending().len() == 0 && final(self).pending().len() == 0,
            },
        decreases self.stack@.len(),
    {
        match self.stack.pop() {
            None => None,
            Some(top) => {
                let ghost below = self.stack@;
                let ListFrame { depth, rest } = top;
                let mut rest = rest;
                match rest.pop() {
                    None => {
                        assert(frame_items(depth, rest@) == Seq::<(usize, EntryView)>::empty());
                        assert(frame_items(depth, rest@) + stack_items(below) =~= stack_items(below));
                        self.next()
                    },
                    Some(e) => {
                        let ghost after = rest@;
                        self.stack.push(ListFrame { depth, rest });
                        assert(self.stack@.drop_last() =~= below);
                        assert((seq![(depth, e@)] + frame_items(depth, after) + stack_items(below)).drop_first()
                            =~= frame_items(depth, after) + stack_items(below));
                        Some((depth, e))
                    },
                }
            },
        }
    }
}

/// The hex name of the tree to read next when `e` comes up in a listing: a
/// directory entry's subtree, and nothing for a file.
pub fn subtree_to_read(e: &TreeEntry) -> (r: Option<Vec<u8>>)
    ensures
        match r {
            Some(h) => e.mode == EntryMode::Directory && h@ == hex_of(e.digest@),
            None => e.mode == EntryMode::File,
        },
{
    match e.mode {
        EntryMode::Directory => Some(digest_to_hex(e.digest.as_slice())),
        EntryMode::File => None,
    }
}

} // verus!
