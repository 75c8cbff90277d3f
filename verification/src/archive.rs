use vstd::prelude::*;

use crate::band::{BandId, BandPolicyV, BandSelectionPolicy};
use crate::copy::{bytes_total, copy_tree, deferred_of, files_total, ops_of, plan};
use crate::errors::Error;
use crate::options::RestoreOptions;
use crate::report::Report;
use crate::restore::{finish_nodes, replay, unique_paths, FsNode, FsNodeV, RestoreTree};
use crate::stats::CopyStats;
use crate::tree::{wf_items, ItemV, StoredTree};

verus! {

/// Image of a [`Band`].
pub struct BandV {
    pub id: Seq<u64>,
    pub closed: bool,
    pub items: Seq<ItemV>,
}

/// One stored version: its identifier, whether its closure (commit)
/// marker is present, and its tree snapshot.
pub struct Band {
    id: BandId,
    closed: bool,
    tree: StoredTree,
}

/// The archive, modeled as the ordered list of its bands, oldest first.
pub struct Archive {
    bands: Vec<Band>,
}

impl View for Archive {
    type V = Seq<BandV>;

    closed spec fn view(&self) -> Seq<BandV> {
        self.bands@.map_values(
            |b: Band| BandV { id: b.id@, closed: b.closed, items: b.tree@ },
        )
    }
}

/// `i` is the band the policy names: for `LatestClosed` the last closed
/// band, for `Specified` the first band carrying the identifier.
pub open spec fn resolves_to(bands: Seq<BandV>, policy: BandPolicyV, i: int) -> bool {
    match policy {
        BandPolicyV::LatestClosed => {
            &&& 0 <= i < bands.len()
            &&& bands[i].closed
            &&& forall|j: int| i < j < bands.len() ==> !(#[trigger] bands[j]).closed
        },
        BandPolicyV::Specified(id) => {
            &&& 0 <= i < bands.len()
            &&& bands[i].id == id
            &&& forall|j: int| 0 <= j < i ==> (#[trigger] bands[j]).id != id
        },
    }
}

/// Whether the policy names any band at all.
pub open spec fn resolvable(bands: Seq<BandV>, policy: BandPolicyV) -> bool {
    match policy {
        BandPolicyV::LatestClosed => exists|i: int|
            0 <= i < bands.len() && (#[trigger] bands[i]).closed,
        BandPolicyV::Specified(id) => exists|i: int|
            0 <= i < bands.len() && (#[trigger] bands[i]).id == id,
    }
}

/// A policy names at most one band.
pub proof fn lemma_resolution_unique(bands: Seq<BandV>, policy: BandPolicyV, i: int, j: int)
    requires
        resolves_to(bands, policy, i),
        resolves_to(bands, policy, j),
    ensures
        i == j,
{
}

impl Archive {
    pub open spec fn wf(&self) -> bool {
        forall|i: int| 0 <= i < self@.len() ==> wf_items((#[trigger] self@[i]).items)
    }

    /// An archive holding no bands yet.
    pub fn new() -> (a: Archive)
        ensures
            a@ == Seq::<BandV>::empty(),
            a.wf(),
    {
        let a = Archive { bands: Vec::new() };
        proof {
            assert(a@ =~= Seq::<BandV>::empty());
        }
        a
    }

    /// Append one stored version.
    pub fn add_band(&mut self, id: BandId, closed: bool, tree: StoredTree)
        requires
            old(self).wf(),
            tree.wf(),
        ensures
            final(self).wf(),
            final(self)@ == old(self)@.push(BandV { id: id@, closed, items: tree@ }),
    {
        let ghost older = self@;
        let ghost bv = BandV { id: id@, closed, items: tree@ };
        self.bands.push(Band { id, closed, tree });
        proof {
            assert(self@ =~= older.push(bv));
        }
    }

    pub fn band_count(&self) -> (n: usize)
        ensures
            n == self@.len(),
    {
        self.bands.len()
    }

    /// Resolve the band selection policy to a concrete band index.  A
    /// policy that names no band is a fatal error before any copying.
    pub fn resolve_band(&self, policy: &BandSelectionPolicy) -> (r: Result<usize, Error>)
        ensures
            r matches Ok(i) ==> resolves_to(self@, policy@, i as int),
            r is Ok <==> resolvable(self@, policy@),
            r is Err ==> (match policy@ {
                BandPolicyV::LatestClosed => r->Err_0 is NoCompleteBands,
                BandPolicyV::Specified(_) => r->Err_0 is BandNotFound,
            }),
    {
        match policy {
            BandSelectionPolicy::LatestClosed => {
                let mut i = self.bands.len();
                while i > 0
                    invariant
                        policy@ is LatestClosed,
                        i <= self@.len(),
                        self@.len() == self.bands@.len(),
                        forall|j: int| i <= j < self@.len() ==> !(#[trigger] self@[j]).closed,
                    decreases i,
                {
                    i -= 1;
                    if self.bands[i].closed {
                        proof {
                            assert(self@[i as int].closed);
                        }
                        return Ok(i);
                    }
                    proof {
                        assert(!self@[i as int].closed);
                    }
                }
                Err(Error::NoCompleteBands)
            },
            BandSelectionPolicy::Specified(id) => {
                let n = self.bands.len();
                let mut i: usize = 0;
                while i < n
                    invariant
                        policy@ == BandPolicyV::Specified(id@),
                        i <= n,
                        n == self@.len(),
                        self@.len() == self.bands@.len(),
                        forall|j: int| 0 <= j < i ==> (#[trigger] self@[j]).id != id@,
                    decreases n - i,
                {
                    if self.bands[i].id.same(id) {
                        proof {
                            assert(self@[i as int].id == id@);
                        }
                        return Ok(i);
                    }
                    proof {
                        assert(self@[i as int].id != id@);
                    }
                    i += 1;
                }
                Err(Error::BandNotFound)
            },
        }
    }

    /// Restore one stored version onto a destination: resolve the band
    /// selection, construct the destination per the overwrite flag, and
    /// drive one full copy pass.  `existing` describes what already sits
    /// at the destination path; a populated destination is refused unless
    /// overwriting was requested.
    pub fn restore(
        &self,
        dest_path: Vec<u8>,
        existing: Vec<FsNode>,
        symlinks_supported: bool,
        options: &RestoreOptions,
        report: &mut Report,
    ) -> (r: Result<(CopyStats, RestoreTree), Error>)
        requires
            self.wf(),
            unique_paths(existing@.map_values(|n: FsNode| n@)),
        ensures
            ({
                let bands = self@;
                let pol = options@.band_selection;
                let init = if options@.overwrite {
                    existing@.map_values(|n: FsNode| n@)
                } else {
                    Seq::<FsNodeV>::empty()
                };
                &&& (r is Ok <==> (resolvable(bands, pol) && (options@.overwrite || existing@.len()
                    == 0) && (exists|b: int|
                    #[trigger] resolves_to(bands, pol, b) && replay(
                        dest_path@,
                        symlinks_supported,
                        init,
                        ops_of(plan(bands[b].items, options@)),
                    ) is Some)))
                &&& (r matches Ok(pair) ==> exists|b: int|
                    #[trigger] resolves_to(bands, pol, b) && {
                        let p = plan(bands[b].items, options@);
                        &&& replay(dest_path@, symlinks_supported, init, ops_of(p)) matches Some(s)
                            && pair.1.nodes_seq() == finish_nodes(s, deferred_of(dest_path@, p))
                        &&& pair.0.files == files_total(p)
                        &&& pair.0.uncompressed_bytes == bytes_total(p)
                        &&& pair.1.wf()
                        &&& pair.1.is_finished()
                        &&& pair.1.root() == dest_path@
                        &&& pair.1.sym_ok() == symlinks_supported
                    })
                &&& (r matches Err(e) ==> {
                    &&& (!resolvable(bands, pol) ==> (match pol {
                        BandPolicyV::LatestClosed => e is NoCompleteBands,
                        BandPolicyV::Specified(_) => e is BandNotFound,
                    }))
                    &&& (resolvable(bands, pol) && !options@.overwrite && existing@.len() > 0
                        ==> (e matches Error::DestinationNotEmpty { path } && path@ == dest_path@))
                    &&& (resolvable(bands, pol) && (options@.overwrite || existing@.len() == 0)
                        ==> e is Restore)
                })
            }),
    {
        let ghost dpv = dest_path@;
        let band_idx = match self.resolve_band(&options.band_selection) {
            Ok(i) => i,
            Err(e) => {
                return Err(e);
            },
        };
        let mut rt = if options.overwrite {
            match RestoreTree::create_overwrite(dest_path, existing, symlinks_supported) {
                Ok(t) => t,
                Err(e) => {
                    proof {
                        assert(false);
                    }
                    return Err(e);
                },
            }
        } else {
            match RestoreTree::create(dest_path, existing, symlinks_supported) {
                Ok(t) => t,
                Err(e) => {
                    return Err(e);
                },
            }
        };
        let ghost initv = rt.nodes_seq();
        let source = &self.bands[band_idx].tree;
        proof {
            assert(self@[band_idx as int].items == source@);
            assert(wf_items(source@));
        }
        match copy_tree(source, &mut rt, options, report) {
            Ok(stats) => {
                proof {
                    assert(resolves_to(self@, options@.band_selection, band_idx as int));
                }
                Ok((stats, rt))
            },
            Err(e) => {
                proof {
                    assert forall|b: int|
                        resolves_to(self@, options@.band_selection, b) implies !(replay(
                        dpv,
                        symlinks_supported,
                        initv,
                        ops_of(plan(self@[b].items, options@)),
                    ) is Some) by {
                        lemma_resolution_unique(
                            self@,
                            options@.band_selection,
                            b,
                            band_idx as int,
                        );
                    }
                }
                Err(e)
            },
        }
    }
}

} // verus!
