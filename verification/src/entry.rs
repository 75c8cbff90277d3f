use vstd::prelude::*;

use crate::apath::{valid_apath, Apath};

verus! {

/// The kind of one item in a tree snapshot.
#[derive(Clone, Copy, PartialEq, Eq, Structural, Debug)]
pub enum Kind {
    File,
    Dir,
    Symlink,
}

/// Mathematical image of an [`Entry`].
pub struct EntryV {
    pub apath: Seq<u8>,
    pub kind: Kind,
    pub mtime: int,
    pub target: Option<Seq<u8>>,
}

/// One immutable item of a tree snapshot: path, kind, modification time,
/// and, for symlinks, the recorded target (possibly absent in damaged data).
pub struct Entry {
    apath: Apath,
    kind: Kind,
    mtime: i64,
    target: Option<Vec<u8>>,
}

impl View for Entry {
    type V = EntryV;

    closed spec fn view(&self) -> EntryV {
        EntryV {
            apath: self.apath@,
            kind: self.kind,
            mtime: self.mtime as int,
            target: match self.target {
                Some(t) => Some(t@),
                None => None,
            },
        }
    }
}

pub open spec fn valid_entry(e: EntryV) -> bool {
    &&& valid_apath(e.apath)
    &&& (e.target is Some ==> e.kind is Symlink)
}

impl Entry {
    /// A directory entry.
    pub fn new_dir(apath: Apath, mtime: i64) -> (e: Entry)
        requires
            apath.wf(),
        ensures
            e@ == (EntryV { apath: apath@, kind: Kind::Dir, mtime: mtime as int, target: None }),
            valid_entry(e@),
    {
        Entry { apath, kind: Kind::Dir, mtime, target: None }
    }

    /// A regular-file entry.
    pub fn new_file(apath: Apath, mtime: i64) -> (e: Entry)
        requires
            apath.wf(),
        ensures
            e@ == (EntryV { apath: apath@, kind: Kind::File, mtime: mtime as int, target: None }),
            valid_entry(e@),
    {
        Entry { apath, kind: Kind::File, mtime, target: None }
    }

    /// A symlink entry; a missing target is tolerated and later reported.
    pub fn new_symlink(apath: Apath, mtime: i64, target: Option<Vec<u8>>) -> (e: Entry)
        requires
            apath.wf(),
        ensures
            e@.apath == apath@,
            e@.kind == Kind::Symlink,
            e@.mtime == mtime as int,
            target is Some ==> (e@.target matches Some(t) && t == target->Some_0@),
            target is None ==> e@.target is None,
            valid_entry(e@),
    {
        Entry { apath, kind: Kind::Symlink, mtime, target }
    }

    pub fn apath(&self) -> (r: &Apath)
        ensures
            r@ == self@.apath,
    {
        &self.apath
    }

    pub fn kind(&self) -> (r: Kind)
        ensures
            r == self@.kind,
    {
        self.kind
    }

    pub fn mtime(&self) -> (r: i64)
        ensures
            r as int == self@.mtime,
    {
        self.mtime
    }

    pub fn symlink_target(&self) -> (r: &Option<Vec<u8>>)
        ensures
            r is Some <==> self@.target is Some,
            r matches Some(t) ==> self@.target matches Some(tv) && t@ == tv,
    {
        &self.target
    }
}

} // verus!
