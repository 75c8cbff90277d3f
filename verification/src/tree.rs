use vstd::prelude::*;

use crate::apath::{lex_lt, strictly_sorted, copy_bytes};
use crate::entry::{valid_entry, Entry, EntryV, Kind};
use crate::errors::Error;

verus! {

/// Image of a [`TreeItem`].
pub struct ItemV {
    pub entry: EntryV,
    pub content: Seq<u8>,
}

/// One entry of a stored tree together with its file content.
pub struct TreeItem {
    entry: Entry,
    content: Vec<u8>,
}

/// The apaths of a snapshot, in snapshot order.
pub open spec fn apaths_of(items: Seq<ItemV>) -> Seq<Seq<u8>> {
    items.map_values(|it: ItemV| it.entry.apath)
}

/// Well-formedness of a snapshot: every entry valid, content only on
/// files, and apaths strictly ascending (so duplicate-free, and every
/// directory ahead of its descendants).
pub open spec fn wf_items(items: Seq<ItemV>) -> bool {
    &&& (forall|i: int|
        0 <= i < items.len() ==> valid_entry((#[trigger] items[i]).entry) && (!(items[i].entry.kind
            is File) ==> items[i].content.len() == 0))
    &&& strictly_sorted(apaths_of(items))
}

/// A read-only tree snapshot held in memory: the source side of a copy.
/// Entries are yielded in strictly ascending apath order.
pub struct StoredTree {
    items: Vec<TreeItem>,
}

impl View for StoredTree {
    type V = Seq<ItemV>;

    closed spec fn view(&self) -> Seq<ItemV> {
        self.items@.map_values(|it: TreeItem| ItemV { entry: it.entry@, content: it.content@ })
    }
}

impl StoredTree {
    pub open spec fn wf(&self) -> bool {
        wf_items(self@)
    }

    /// An empty snapshot.
    pub fn new() -> (t: StoredTree)
        ensures
            t@ == Seq::<ItemV>::empty(),
            t.wf(),
    {
        let t = StoredTree { items: Vec::new() };
        proof {
            assert(t@ =~= Seq::<ItemV>::empty());
        }
        t
    }

    /// Append one entry; the caller supplies entries in ascending apath
    /// order, as every conforming tree producer must.
    pub fn push(&mut self, entry: Entry, content: Vec<u8>)
        requires
            old(self).wf(),
            valid_entry(entry@),
            entry@.kind is File || content@.len() == 0,
            old(self)@.len() > 0 ==> lex_lt(
                old(self)@[old(self)@.len() - 1].entry.apath,
                entry@.apath,
            ),
        ensures
            final(self).wf(),
            final(self)@ == old(self)@.push(ItemV { entry: entry@, content: content@ }),
    {
        let ghost item = ItemV { entry: entry@, content: content@ };
        let ghost older = self@;
        self.items.push(TreeItem { entry, content });
        proof {
            assert(self@ =~= older.push(item));
            assert(apaths_of(older.push(item)) =~= apaths_of(older).push(item.entry.apath));
            if older.len() > 0 {
                assert(apaths_of(older)[older.len() - 1] == older[older.len() - 1].entry.apath);
            }
            crate::apath::lemma_sorted_push(apaths_of(older), item.entry.apath);
        }
    }

    pub fn len(&self) -> (n: usize)
        ensures
            n == self@.len(),
    {
        self.items.len()
    }

    pub fn entry_at(&self, i: usize) -> (e: &Entry)
        requires
            i < self@.len(),
        ensures
            e@ == self@[i as int].entry,
    {
        &self.items[i].entry
    }

    /// Produce the byte content of the file entry at `i`; fails with a
    /// content-unavailable error if the entry is not a file.
    pub fn file_contents(&self, i: usize) -> (r: Result<Vec<u8>, Error>)
        requires
            i < self@.len(),
        ensures
            self@[i as int].entry.kind is File ==> (r matches Ok(c) && c@ == self@[
                i as int
            ].content),
            !(self@[i as int].entry.kind is File) ==> (r matches Err(e) && e is ContentUnavailable),
    {
        let it = &self.items[i];
        match it.entry.kind() {
            Kind::File => Ok(copy_bytes(&it.content)),
            _ => Err(Error::ContentUnavailable { apath: it.entry.apath().to_vec() }),
        }
    }
}

} // verus!
