use vstd::prelude::*;

use crate::apath::{bytes_eq, copy_bytes, Apath};
use crate::entry::{valid_entry, Entry, EntryV};
use crate::errors::Error;
use crate::report::{Problem, Report};
use crate::stats::CopyStats;

verus! {

/// Image of an [`FsPayload`].
pub enum FsPayloadV {
    Dir,
    File(Seq<u8>),
    Symlink(Seq<u8>),
}

/// Image of an [`FsNode`].
pub struct FsNodeV {
    pub path: Seq<u8>,
    pub mtime: Option<int>,
    pub payload: FsPayloadV,
}

/// Kind-specific data of one materialized destination node.
#[derive(Clone, PartialEq, Eq, Debug)]
pub enum FsPayload {
    Dir,
    File(Vec<u8>),
    Symlink(Vec<u8>),
}

/// One node of the destination: a path under the restore root, the
/// modification time applied so far (directories get theirs only when the
/// tree is finished), and the node's data.
#[derive(Clone, PartialEq, Eq, Debug)]
pub struct FsNode {
    pub path: Vec<u8>,
    pub mtime: Option<i64>,
    pub payload: FsPayload,
}

impl View for FsNode {
    type V = FsNodeV;

    closed spec fn view(&self) -> FsNodeV {
        FsNodeV {
            path: self.path@,
            mtime: match self.mtime {
                Some(t) => Some(t as int),
                None => None,
            },
            payload: match self.payload {
                FsPayload::Dir => FsPayloadV::Dir,
                FsPayload::File(c) => FsPayloadV::File(c@),
                FsPayload::Symlink(t) => FsPayloadV::Symlink(t@),
            },
        }
    }
}

/// A deferred directory timestamp: applied only when the whole tree is
/// finished, because writing children would otherwise clobber it on a real
/// filesystem.
pub struct DeferredV {
    pub path: Seq<u8>,
    pub mtime: int,
}

#[derive(Clone, PartialEq, Eq, Debug)]
pub struct DeferredMtime {
    pub path: Vec<u8>,
    pub mtime: i64,
}

impl View for DeferredMtime {
    type V = DeferredV;

    closed spec fn view(&self) -> DeferredV {
        DeferredV { path: self.path@, mtime: self.mtime as int }
    }
}

/// One entry materialization step, as recorded in the destination's
/// operation history.
pub enum OpV {
    Dir { entry: EntryV },
    File { entry: EntryV, content: Seq<u8> },
    Symlink { entry: EntryV },
}

pub open spec fn has_path(nodes: Seq<FsNodeV>, p: Seq<u8>) -> bool {
    exists|i: int| 0 <= i < nodes.len() && nodes[i].path == p
}

pub open spec fn path_index(nodes: Seq<FsNodeV>, p: Seq<u8>) -> int {
    choose|i: int| 0 <= i < nodes.len() && nodes[i].path == p
}

/// The node stored at `p`, if any.
pub open spec fn lookup(nodes: Seq<FsNodeV>, p: Seq<u8>) -> Option<FsNodeV> {
    if has_path(nodes, p) {
        Some(nodes[path_index(nodes, p)])
    } else {
        None
    }
}

/// No two destination nodes share a path.
pub open spec fn unique_paths(nodes: Seq<FsNodeV>) -> bool {
    forall|i: int, j: int|
        0 <= i < j < nodes.len() ==> (#[trigger] nodes[i]).path != (#[trigger] nodes[j]).path
}

/// Replace the node at `n.path`, or append `n` if the path is free.
pub open spec fn upsert(nodes: Seq<FsNodeV>, n: FsNodeV) -> Seq<FsNodeV> {
    if has_path(nodes, n.path) {
        nodes.update(path_index(nodes, n.path), n)
    } else {
        nodes.push(n)
    }
}

/// An apath resolved under the destination root: the root with the apath
/// (which carries its own leading slash) appended.
pub open spec fn rooted(root: Seq<u8>, apath: Seq<u8>) -> Seq<u8> {
    root + apath
}

/// The effect of one materialization step on the destination's nodes.
/// `None` is a fatal failure that leaves the nodes unchanged.
pub open spec fn apply_op(root: Seq<u8>, sym_ok: bool, nodes: Seq<FsNodeV>, op: OpV) -> Option<
    Seq<FsNodeV>,
> {
    match op {
        OpV::Dir { entry } => {
            let p = rooted(root, entry.apath);
            if has_path(nodes, p) {
                Some(nodes)
            } else {
                Some(nodes.push(FsNodeV { path: p, mtime: None, payload: FsPayloadV::Dir }))
            }
        },
        OpV::File { entry, content } => {
            let p = rooted(root, entry.apath);
            if has_path(nodes, p) && nodes[path_index(nodes, p)].payload is Dir {
                None
            } else {
                Some(
                    upsert(
                        nodes,
                        FsNodeV {
                            path: p,
                            mtime: Some(entry.mtime),
                            payload: FsPayloadV::File(content),
                        },
                    ),
                )
            }
        },
        OpV::Symlink { entry } => {
            if !sym_ok {
                Some(nodes)
            } else {
                match entry.target {
                    None => Some(nodes),
                    Some(t) => {
                        let p = rooted(root, entry.apath);
                        if has_path(nodes, p) {
                            None
                        } else {
                            Some(
                                nodes.push(
                                    FsNodeV {
                                        path: p,
                                        mtime: Some(entry.mtime),
                                        payload: FsPayloadV::Symlink(t),
                                    },
                                ),
                            )
                        }
                    },
                }
            }
        },
    }
}

/// The effect of a whole sequence of materialization steps, applied in
/// order; `None` as soon as one step fails.
pub open spec fn replay(root: Seq<u8>, sym_ok: bool, init: Seq<FsNodeV>, ops: Seq<OpV>) -> Option<
    Seq<FsNodeV>,
>
    decreases ops.len(),
{
    if ops.len() == 0 {
        Some(init)
    } else {
        match replay(root, sym_ok, init, ops.drop_last()) {
            None => None,
            Some(s) => apply_op(root, sym_ok, s, ops.last()),
        }
    }
}

/// Once a step has failed, no extension of the history succeeds.
pub proof fn lemma_replay_extend_none(
    root: Seq<u8>,
    sym_ok: bool,
    init: Seq<FsNodeV>,
    ops: Seq<OpV>,
    k: int,
)
    requires
        0 <= k <= ops.len(),
        replay(root, sym_ok, init, ops.take(k)) is None,
    ensures
        replay(root, sym_ok, init, ops) is None,
    decreases ops.len() - k,
{
    if k < ops.len() {
        assert(ops.take(k + 1).drop_last() =~= ops.take(k));
        lemma_replay_extend_none(root, sym_ok, init, ops, k + 1);
    } else {
        assert(ops.take(k) =~= ops);
    }
}

/// Apply one deferred directory timestamp; a path that no longer names a
/// directory is left alone (and reported as a problem by `finish`).
pub open spec fn apply_mtime(nodes: Seq<FsNodeV>, d: DeferredV) -> Seq<FsNodeV> {
    if has_path(nodes, d.path) && nodes[path_index(nodes, d.path)].payload is Dir {
        nodes.update(
            path_index(nodes, d.path),
            FsNodeV { path: d.path, mtime: Some(d.mtime), payload: FsPayloadV::Dir },
        )
    } else {
        nodes
    }
}

/// Apply every deferred directory timestamp, in the order recorded.
pub open spec fn finish_nodes(nodes: Seq<FsNodeV>, ds: Seq<DeferredV>) -> Seq<FsNodeV>
    decreases ds.len(),
{
    if ds.len() == 0 {
        nodes
    } else {
        apply_mtime(finish_nodes(nodes, ds.drop_last()), ds.last())
    }
}

/// Find the index of the node at `p`, if any.
fn find_node_index(nodes: &Vec<FsNode>, p: &Vec<u8>) -> (r: Option<usize>)
    ensures
        r matches Some(i) ==> i < nodes@.len() && nodes@[i as int]@.path == p@,
        r is None ==> forall|j: int| 0 <= j < nodes@.len() ==> (#[trigger] nodes@[j])@.path != p@,
{
    let n = nodes.len();
    let mut i: usize = 0;
    while i < n
        invariant
            i <= n,
            n == nodes@.len(),
            forall|j: int| 0 <= j < i ==> (#[trigger] nodes@[j])@.path != p@,
        decreases n - i,
    {
        if bytes_eq(&nodes[i].path, p) {
            return Some(i);
        }
        i += 1;
    }
    None
}

/// A write-only tree under a destination root: the in-memory model of the
/// filesystem state a restore produces.
pub struct RestoreTree {
    path: Vec<u8>,
    nodes: Vec<FsNode>,
    deferred: Vec<DeferredMtime>,
    symlinks_supported: bool,
    finished: bool,
    ops: Ghost<Seq<OpV>>,
}

impl RestoreTree {
    /// The destination root path.
    pub closed spec fn root(&self) -> Seq<u8> {
        self.path@
    }

    /// Whether this destination can materialize symlinks.
    pub closed spec fn sym_ok(&self) -> bool {
        self.symlinks_supported
    }

    /// The destination's nodes.
    pub closed spec fn nodes_seq(&self) -> Seq<FsNodeV> {
        self.nodes@.map_values(|n: FsNode| n@)
    }

    /// The deferred directory timestamps not yet applied.
    pub closed spec fn deferred_seq(&self) -> Seq<DeferredV> {
        self.deferred@.map_values(|d: DeferredMtime| d@)
    }

    /// The history of materialization steps applied so far.
    pub closed spec fn ops_seq(&self) -> Seq<OpV> {
        self.ops@
    }

    /// Whether `finish` has run; afterwards no further step is accepted.
    pub closed spec fn is_finished(&self) -> bool {
        self.finished
    }

    pub open spec fn wf(&self) -> bool {
        unique_paths(self.nodes_seq())
    }

    /// Everything but nodes, deferred list, history and finished flag is
    /// fixed for the tree's whole lifetime.
    pub open spec fn same_config(&self, other: &RestoreTree) -> bool {
        self.root() == other.root() && self.sym_ok() == other.sym_ok()
    }

    /// Create a restore destination.  The destination must be empty (or
    /// not yet exist, which an empty node list equally describes); a
    /// populated destination is refused, the safety rail against
    /// accidental data loss.
    pub fn create(path: Vec<u8>, existing: Vec<FsNode>, symlinks_supported: bool) -> (r: Result<
        RestoreTree,
        Error,
    >)
        ensures
            r is Ok <==> existing@.len() == 0,
            r matches Ok(t) ==> {
                &&& t.root() == path@
                &&& t.sym_ok() == symlinks_supported
                &&& t.nodes_seq() == Seq::<FsNodeV>::empty()
                &&& t.deferred_seq() == Seq::<DeferredV>::empty()
                &&& t.ops_seq() == Seq::<OpV>::empty()
                &&& !t.is_finished()
                &&& t.wf()
            },
            r matches Err(e) ==> (e matches Error::DestinationNotEmpty { path: p } && p@ == path@),
    {
        if existing.len() > 0 {
            return Err(Error::DestinationNotEmpty { path });
        }
        let t = RestoreTree {
            path,
            nodes: existing,
            deferred: Vec::new(),
            symlinks_supported,
            finished: false,
            ops: Ghost(Seq::empty()),
        };
        proof {
            assert(t.nodes_seq() =~= Seq::<FsNodeV>::empty());
            assert(t.deferred_seq() =~= Seq::<DeferredV>::empty());
        }
        Ok(t)
    }

    /// Create a restore destination over whatever is already there,
    /// skipping the emptiness check.  Pre-existing nodes stay in place
    /// unless a restored entry's path collides with them.
    pub fn create_overwrite(path: Vec<u8>, existing: Vec<FsNode>, symlinks_supported: bool) -> (r:
        Result<RestoreTree, Error>)
        requires
            unique_paths(existing@.map_values(|n: FsNode| n@)),
        ensures
            r matches Ok(t) ==> {
                &&& t.root() == path@
                &&& t.sym_ok() == symlinks_supported
                &&& t.nodes_seq() == existing@.map_values(|n: FsNode| n@)
                &&& t.deferred_seq() == Seq::<DeferredV>::empty()
                &&& t.ops_seq() == Seq::<OpV>::empty()
                &&& !t.is_finished()
                &&& t.wf()
            },
            r is Ok,
    {
        let t = RestoreTree {
            path,
            nodes: existing,
            deferred: Vec::new(),
            symlinks_supported,
            finished: false,
            ops: Ghost(Seq::empty()),
        };
        proof {
            assert(t.deferred_seq() =~= Seq::<DeferredV>::empty());
        }
        Ok(t)
    }

    /// Resolve an apath under the destination root; the only place the
    /// apath-to-filesystem-path translation occurs.
    pub fn rooted_path(&self, apath: &Apath) -> (r: Vec<u8>)
        ensures
            r@ == rooted(self.root(), apath@),
    {
        let mut out = copy_bytes(&self.path);
        let ab = apath.as_bytes();
        let n = ab.len();
        let mut i: usize = 0;
        while i < n
            invariant
                i <= n,
                n == ab@.len(),
                out@ == self.path@ + ab@.take(i as int),
            decreases n - i,
        {
            out.push(ab[i]);
            proof {
                assert(self.path@ + ab@.take(i as int) + seq![ab@[i as int]] =~= self.path@
                    + ab@.take(i + 1));
            }
            i += 1;
        }
        proof {
            assert(self.path@ + ab@.take(n as int) =~= self.path@ + ab@);
        }
        out
    }

    /// Create the directory named by the entry if absent; success if it
    /// already exists.  The entry's timestamp is recorded for deferred
    /// application by `finish`.
    pub fn copy_dir(&mut self, entry: &Entry) -> (r: Result<(), Error>)
        requires
            old(self).wf(),
            !old(self).is_finished(),
            valid_entry(entry@),
            entry@.kind is Dir,
        ensures
            final(self).wf(),
            final(self).same_config(old(self)),
            !final(self).is_finished(),
            r is Ok,
            Some(final(self).nodes_seq()) == apply_op(
                old(self).root(),
                old(self).sym_ok(),
                old(self).nodes_seq(),
                OpV::Dir { entry: entry@ },
            ),
            final(self).ops_seq() == old(self).ops_seq().push(OpV::Dir { entry: entry@ }),
            final(self).deferred_seq() == old(self).deferred_seq().push(
                DeferredV { path: rooted(old(self).root(), entry@.apath), mtime: entry@.mtime },
            ),
    {
        let p = self.rooted_path(entry.apath());
        let ghost pv = p@;
        match find_node_index(&self.nodes, &p) {
            Some(i) => {
                proof {
                    assert(self.nodes_seq()[i as int].path == pv);
                    assert(has_path(self.nodes_seq(), pv));
                }
            },
            None => {
                proof {
                    assert forall|i: int| 0 <= i < self.nodes_seq().len() implies (
                    #[trigger] self.nodes_seq()[i]).path != pv by {
                        assert(self.nodes_seq()[i] == self.nodes@[i]@);
                    }
                    assert(!has_path(self.nodes_seq(), pv));
                }
                let ghost older = self.nodes_seq();
                let node = FsNode { path: copy_bytes(&p), mtime: None, payload: FsPayload::Dir };
                let ghost nodev = node@;
                self.nodes.push(node);
                proof {
                    assert(self.nodes_seq() =~= older.push(nodev));
                }
            },
        }
        let ghost olderd = self.deferred_seq();
        let d = DeferredMtime { path: p, mtime: entry.mtime() };
        let ghost dv = d@;
        self.deferred.push(d);
        proof {
            assert(self.deferred_seq() =~= olderd.push(dv));
        }
        let ghost op = OpV::Dir { entry: entry@ };
        proof {
            self.ops@ = self.ops@.push(op);
        }
        Ok(())
    }

    /// Create or fully overwrite the destination file and store the given
    /// content, then stamp the entry's modification time on it.  Returns
    /// the bytes copied for the statistics.  A directory sitting at the
    /// destination path makes the creation fail, fatally for the run.
    pub fn copy_file(&mut self, entry: &Entry, content: Vec<u8>) -> (r: Result<CopyStats, Error>)
        requires
            old(self).wf(),
            !old(self).is_finished(),
            valid_entry(entry@),
            entry@.kind is File,
        ensures
            final(self).wf(),
            final(self).same_config(old(self)),
            !final(self).is_finished(),
            final(self).deferred_seq() == old(self).deferred_seq(),
            match apply_op(
                old(self).root(),
                old(self).sym_ok(),
                old(self).nodes_seq(),
                OpV::File { entry: entry@, content: content@ },
            ) {
                Some(s) => {
                    &&& r matches Ok(st) && st.files == 0 && st.uncompressed_bytes
                        == content@.len()
                    &&& final(self).nodes_seq() == s
                    &&& final(self).ops_seq() == old(self).ops_seq().push(
                        OpV::File { entry: entry@, content: content@ },
                    )
                },
                None => {
                    &&& r matches Err(e) && e matches Error::Restore { path } && path@ == rooted(
                        old(self).root(),
                        entry@.apath,
                    )
                    &&& final(self).nodes_seq() == old(self).nodes_seq()
                    &&& final(self).ops_seq() == old(self).ops_seq()
                },
            },
    {
        let p = self.rooted_path(entry.apath());
        let ghost pv = p@;
        let bytes: u64 = content.len() as u64;
        let ghost older = self.nodes_seq();
        match find_node_index(&self.nodes, &p) {
            Some(i) => {
                proof {
                    assert(older[i as int].path == pv);
                    assert(has_path(older, pv));
                    let k = path_index(older, pv);
                    assert(older[k].path == pv);
                    assert(k == i as int);
                }
                let in_the_way = match &self.nodes[i].payload {
                    FsPayload::Dir => true,
                    _ => false,
                };
                if in_the_way {
                    return Err(Error::Restore { path: p });
                }
                let node = FsNode {
                    path: p,
                    mtime: Some(entry.mtime()),
                    payload: FsPayload::File(content),
                };
                let ghost nodev = node@;
                self.nodes.remove(i);
                self.nodes.insert(i, node);
                proof {
                    assert(self.nodes_seq() =~= older.update(i as int, nodev));
                    self.ops@ = self.ops@.push(
                        OpV::File { entry: entry@, content: nodev.payload->File_0 },
                    );
                }
                Ok(CopyStats { files: 0, uncompressed_bytes: bytes })
            },
            None => {
                proof {
                    assert forall|i: int| 0 <= i < older.len() implies (
                    #[trigger] older[i]).path != pv by {
                        assert(older[i] == self.nodes@[i]@);
                    }
                    assert(!has_path(older, pv));
                }
                let node = FsNode {
                    path: p,
                    mtime: Some(entry.mtime()),
                    payload: FsPayload::File(content),
                };
                let ghost nodev = node@;
                self.nodes.push(node);
                proof {
                    assert(self.nodes_seq() =~= older.push(nodev));
                    self.ops@ = self.ops@.push(
                        OpV::File { entry: entry@, content: nodev.payload->File_0 },
                    );
                }
                Ok(CopyStats { files: 0, uncompressed_bytes: bytes })
            },
        }
    }

    /// Materialize a symlink entry.  On a platform without symlink
    /// support, or for an entry with no recorded target, the entry is
    /// skipped and a problem reported; the run continues.  A path
    /// collision with an existing node is a fatal error.
    pub fn copy_symlink(&mut self, entry: &Entry, report: &mut Report) -> (r: Result<(), Error>)
        requires
            old(self).wf(),
            !old(self).is_finished(),
            valid_entry(entry@),
            entry@.kind is Symlink,
        ensures
            final(self).wf(),
            final(self).same_config(old(self)),
            !final(self).is_finished(),
            final(self).deferred_seq() == old(self).deferred_seq(),
            final(report).filenames_seq() == old(report).filenames_seq(),
            match apply_op(
                old(self).root(),
                old(self).sym_ok(),
                old(self).nodes_seq(),
                OpV::Symlink { entry: entry@ },
            ) {
                Some(s) => {
                    &&& r is Ok
                    &&& final(self).nodes_seq() == s
                    &&& final(self).ops_seq() == old(self).ops_seq().push(
                        OpV::Symlink { entry: entry@ },
                    )
                },
                None => {
                    &&& r matches Err(e) && e matches Error::Restore { path } && path@ == rooted(
                        old(self).root(),
                        entry@.apath,
                    )
                    &&& final(self).nodes_seq() == old(self).nodes_seq()
                    &&& final(self).ops_seq() == old(self).ops_seq()
                },
            },
            !old(self).sym_ok() ==> final(report).problems_seq() == old(report).problems_seq().push(
                crate::report::ProblemV::SymlinksUnsupported { apath: entry@.apath },
            ),
            old(self).sym_ok() && entry@.target is None ==> final(report).problems_seq() == old(
                report,
            ).problems_seq().push(
                crate::report::ProblemV::SymlinkMissingTarget { apath: entry@.apath },
            ),
            old(self).sym_ok() && entry@.target is Some ==> final(report).problems_seq() == old(
                report,
            ).problems_seq(),
    {
        let ghost op = OpV::Symlink { entry: entry@ };
        if !self.symlinks_supported {
            report.problem(Problem::SymlinksUnsupported { apath: entry.apath().to_vec() });
            proof {
                self.ops@ = self.ops@.push(op);
            }
            return Ok(());
        }
        let target = match entry.symlink_target() {
            Some(t) => copy_bytes(t),
            None => {
                report.problem(Problem::SymlinkMissingTarget { apath: entry.apath().to_vec() });
                proof {
                    self.ops@ = self.ops@.push(op);
                }
                return Ok(());
            },
        };
        let p = self.rooted_path(entry.apath());
        let ghost pv = p@;
        match find_node_index(&self.nodes, &p) {
            Some(i) => {
                proof {
                    assert(self.nodes_seq()[i as int].path == pv);
                    assert(has_path(self.nodes_seq(), pv));
                }
                Err(Error::Restore { path: p })
            },
            None => {
                proof {
                    assert forall|i: int| 0 <= i < self.nodes_seq().len() implies (
                    #[trigger] self.nodes_seq()[i]).path != pv by {
                        assert(self.nodes_seq()[i] == self.nodes@[i]@);
                    }
                    assert(!has_path(self.nodes_seq(), pv));
                }
                let ghost older = self.nodes_seq();
                let node = FsNode {
                    path: p,
                    mtime: Some(entry.mtime()),
                    payload: FsPayload::Symlink(target),
                };
                let ghost nodev = node@;
                self.nodes.push(node);
                proof {
                    assert(self.nodes_seq() =~= older.push(nodev));
                    self.ops@ = self.ops@.push(op);
                }
                Ok(())
            },
        }
    }

    /// Apply every deferred directory timestamp, in the order recorded,
    /// and close the tree.  A timestamp whose path no longer names a
    /// directory is reported as a problem, not an error: the file data is
    /// already safely in place.
    pub fn finish(&mut self, report: &mut Report) -> (r: Result<CopyStats, Error>)
        requires
            old(self).wf(),
            !old(self).is_finished(),
        ensures
            final(self).wf(),
            final(self).same_config(old(self)),
            final(self).is_finished(),
            r matches Ok(s) && s.files == 0 && s.uncompressed_bytes == 0,
            final(self).nodes_seq() == finish_nodes(old(self).nodes_seq(), old(self).deferred_seq()),
            final(self).ops_seq() == old(self).ops_seq(),
            final(report).filenames_seq() == old(report).filenames_seq(),
            old(report).problems_seq().is_prefix_of(final(report).problems_seq()),
    {
        let ghost ds = self.deferred_seq();
        let ghost init = self.nodes_seq();
        let n = self.deferred.len();
        let mut k: usize = 0;
        proof {
            assert(ds.take(0) =~= Seq::<DeferredV>::empty());
        }
        while k < n
            invariant
                k <= n,
                n == self.deferred@.len(),
                ds == self.deferred_seq(),
                self.nodes_seq() == finish_nodes(init, ds.take(k as int)),
                self.wf(),
                old(report).problems_seq().is_prefix_of(report.problems_seq()),
                report.filenames_seq() == old(report).filenames_seq(),
                self.path@ == old(self).path@,
                self.symlinks_supported == old(self).symlinks_supported,
                self.finished == old(self).finished,
                self.ops@ == old(self).ops@,
                self.deferred@ == old(self).deferred@,
            decreases n - k,
        {
            let ghost cur = self.nodes_seq();
            let ghost dv = ds[k as int];
            proof {
                assert(ds.take(k + 1).drop_last() =~= ds.take(k as int));
                assert(ds.take(k + 1).last() == dv);
            }
            let dpath = copy_bytes(&self.deferred[k].path);
            let dmtime = self.deferred[k].mtime;
            proof {
                assert(self.deferred@[k as int]@ == dv);
            }
            match find_node_index(&self.nodes, &dpath) {
                Some(i) => {
                    proof {
                        assert(cur[i as int].path == dv.path);
                        assert(has_path(cur, dv.path));
                        let kk = path_index(cur, dv.path);
                        assert(cur[kk].path == dv.path);
                        assert(kk == i as int);
                    }
                    let is_dir = match &self.nodes[i].payload {
                        FsPayload::Dir => true,
                        _ => false,
                    };
                    if is_dir {
                        let node = FsNode {
                            path: dpath,
                            mtime: Some(dmtime),
                            payload: FsPayload::Dir,
                        };
                        let ghost nodev = node@;
                        self.nodes.remove(i);
                        self.nodes.insert(i, node);
                        proof {
                            assert(self.nodes_seq() =~= cur.update(i as int, nodev));
                            assert(self.nodes_seq() == apply_mtime(cur, dv));
                        }
                    } else {
                        report.problem(Problem::DirMtimeUnapplied { path: dpath });
                        proof {
                            assert(self.nodes_seq() == apply_mtime(cur, dv));
                        }
                    }
                },
                None => {
                    proof {
                        assert forall|i: int| 0 <= i < cur.len() implies (#[trigger] cur[i]).path
                            != dv.path by {
                            assert(cur[i] == self.nodes@[i]@);
                        }
                        assert(!has_path(cur, dv.path));
                        assert(self.nodes_seq() == apply_mtime(cur, dv));
                    }
                    report.problem(Problem::DirMtimeUnapplied { path: dpath });
                },
            }
            k += 1;
        }
        proof {
            assert(ds.take(n as int) =~= ds);
        }
        self.deferred.clear();
        self.finished = true;
        Ok(CopyStats { files: 0, uncompressed_bytes: 0 })
    }

    pub fn node_count(&self) -> (n: usize)
        ensures
            n == self.nodes_seq().len(),
    {
        self.nodes.len()
    }

    pub fn node_at(&self, i: usize) -> (r: &FsNode)
        requires
            i < self.nodes_seq().len(),
        ensures
            r@ == self.nodes_seq()[i as int],
    {
        &self.nodes[i]
    }

    /// The node materialized at `path`, if any.
    pub fn find_node(&self, path: &Vec<u8>) -> (r: Option<&FsNode>)
        requires
            self.wf(),
        ensures
            r is Some <==> has_path(self.nodes_seq(), path@),
            r matches Some(n) ==> lookup(self.nodes_seq(), path@) == Some(n@),
    {
        let ghost nodes = self.nodes_seq();
        match find_node_index(&self.nodes, path) {
            Some(i) => {
                proof {
                    assert(nodes[i as int].path == path@);
                    assert(has_path(nodes, path@));
                    let k = path_index(nodes, path@);
                    assert(nodes[k].path == path@);
                    assert(k == i as int);
                }
                Some(&self.nodes[i])
            },
            None => {
                proof {
                    assert forall|i: int| 0 <= i < nodes.len() implies (#[trigger] nodes[i]).path
                        != path@ by {
                        assert(nodes[i] == self.nodes@[i]@);
                    }
                    assert(!has_path(nodes, path@));
                }
                None
            },
        }
    }
}

/// The destination path one materialization step touches.
pub open spec fn op_target(root: Seq<u8>, op: OpV) -> Seq<u8> {
    match op {
        OpV::Dir { entry } => rooted(root, entry.apath),
        OpV::File { entry, .. } => rooted(root, entry.apath),
        OpV::Symlink { entry } => rooted(root, entry.apath),
    }
}

/// Materializing the same directory twice never errors and leaves the
/// directory in place both times: the second application changes nothing.
pub proof fn lemma_copy_dir_idempotent(
    root: Seq<u8>,
    sym_ok: bool,
    nodes: Seq<FsNodeV>,
    entry: EntryV,
)
    requires
        entry.kind is Dir,
    ensures
        apply_op(root, sym_ok, nodes, OpV::Dir { entry }) matches Some(s1) && apply_op(
            root,
            sym_ok,
            s1,
            OpV::Dir { entry },
        ) == Some(s1) && has_path(s1, rooted(root, entry.apath)),
{
    let p = rooted(root, entry.apath);
    if !has_path(nodes, p) {
        let s1 = nodes.push(FsNodeV { path: p, mtime: None, payload: FsPayloadV::Dir });
        assert(s1[nodes.len() as int].path == p);
        assert(has_path(s1, p));
    }
}

/// On a platform without symlink support a symlink entry is skipped, not
/// restored, and never fails the run: the destination is unchanged.
pub proof fn lemma_symlink_degrades(root: Seq<u8>, nodes: Seq<FsNodeV>, entry: EntryV)
    requires
        entry.kind is Symlink,
    ensures
        apply_op(root, false, nodes, OpV::Symlink { entry }) == Some(nodes),
{
}

/// One step that does not touch `q` leaves the node at `q` alone, and
/// keeps paths unique.
pub proof fn lemma_apply_preserves_unrelated(
    root: Seq<u8>,
    sym_ok: bool,
    nodes: Seq<FsNodeV>,
    op: OpV,
    q: Seq<u8>,
)
    requires
        unique_paths(nodes),
        op_target(root, op) != q,
        apply_op(root, sym_ok, nodes, op) is Some,
    ensures
        lookup(apply_op(root, sym_ok, nodes, op)->Some_0, q) == lookup(nodes, q),
        unique_paths(apply_op(root, sym_ok, nodes, op)->Some_0),
{
    let t = op_target(root, op);
    let s = apply_op(root, sym_ok, nodes, op)->Some_0;
    if s == nodes {
    } else if has_path(nodes, t) {
        // an in-place replacement: paths are unchanged pointwise
        let k = path_index(nodes, t);
        assert(forall|i: int| 0 <= i < s.len() ==> (#[trigger] s[i]).path == nodes[i].path);
        assert forall|i: int, j: int| 0 <= i < j < s.len() implies (#[trigger] s[i]).path != (
        #[trigger] s[j]).path by {
            assert(nodes[i].path != nodes[j].path);
        }
        if has_path(nodes, q) {
            let a = path_index(nodes, q);
            assert(nodes[a].path == q);
            assert(s[a].path == q);
            assert(has_path(s, q));
            let b = path_index(s, q);
            assert(s[b].path == q);
            assert(nodes[b].path == q);
            assert(a == b);
            assert(a != k);
        } else {
            assert forall|i: int| 0 <= i < s.len() implies (#[trigger] s[i]).path != q by {
                assert(nodes[i].path != q);
            }
        }
    } else {
        // a fresh node is appended at the free path `t`
        assert(s =~= nodes.push(s.last()));
        assert(s.last().path == t);
        assert forall|i: int, j: int| 0 <= i < j < s.len() implies (#[trigger] s[i]).path != (
        #[trigger] s[j]).path by {
            if j < nodes.len() {
                assert(nodes[i].path != nodes[j].path);
            } else {
                assert(s[j].path == t);
                assert(s[i] == nodes[i]);
            }
        }
        if has_path(nodes, q) {
            let a = path_index(nodes, q);
            assert(s[a].path == q);
            assert(has_path(s, q));
            let b = path_index(s, q);
            assert(s[b].path == q);
            assert(b < nodes.len());
            assert(nodes[b].path == q);
            assert(a == b);
        } else {
            assert forall|i: int| 0 <= i < s.len() implies (#[trigger] s[i]).path != q by {
                if i < nodes.len() {
                    assert(nodes[i].path != q);
                }
            }
        }
    }
}

/// A whole history that never touches `q` leaves the node at `q` alone.
pub proof fn lemma_replay_preserves_unrelated(
    root: Seq<u8>,
    sym_ok: bool,
    init: Seq<FsNodeV>,
    ops: Seq<OpV>,
    q: Seq<u8>,
)
    requires
        unique_paths(init),
        forall|k: int| 0 <= k < ops.len() ==> op_target(root, #[trigger] ops[k]) != q,
        replay(root, sym_ok, init, ops) is Some,
    ensures
        lookup(replay(root, sym_ok, init, ops)->Some_0, q) == lookup(init, q),
        unique_paths(replay(root, sym_ok, init, ops)->Some_0),
    decreases ops.len(),
{
    if ops.len() > 0 {
        lemma_replay_preserves_unrelated(root, sym_ok, init, ops.drop_last(), q);
        let mid = replay(root, sym_ok, init, ops.drop_last())->Some_0;
        lemma_apply_preserves_unrelated(root, sym_ok, mid, ops.last(), q);
    }
}

/// Deferred timestamp application never touches a path outside the
/// recorded list, and keeps paths unique.
pub proof fn lemma_finish_preserves_unrelated(nodes: Seq<FsNodeV>, ds: Seq<DeferredV>, q: Seq<u8>)
    requires
        unique_paths(nodes),
        forall|k: int| 0 <= k < ds.len() ==> (#[trigger] ds[k]).path != q,
    ensures
        lookup(finish_nodes(nodes, ds), q) == lookup(nodes, q),
        unique_paths(finish_nodes(nodes, ds)),
    decreases ds.len(),
{
    if ds.len() > 0 {
        lemma_finish_preserves_unrelated(nodes, ds.drop_last(), q);
        let mid = finish_nodes(nodes, ds.drop_last());
        let d = ds.last();
        let s = apply_mtime(mid, d);
        if s != mid {
            let k = path_index(mid, d.path);
            assert(forall|i: int| 0 <= i < s.len() ==> (#[trigger] s[i]).path == mid[i].path);
            assert forall|i: int, j: int| 0 <= i < j < s.len() implies (#[trigger] s[i]).path != (
            #[trigger] s[j]).path by {
                assert(mid[i].path != mid[j].path);
            }
            if has_path(mid, q) {
                let a = path_index(mid, q);
                assert(mid[a].path == q);
                assert(s[a].path == q);
                assert(has_path(s, q));
                let b = path_index(s, q);
                assert(s[b].path == q);
                assert(mid[b].path == q);
                assert(a == b);
                assert(a != k);
            } else {
                assert forall|i: int| 0 <= i < s.len() implies (#[trigger] s[i]).path != q by {
                    assert(mid[i].path != q);
                }
            }
        }
    }
}

} // verus!
