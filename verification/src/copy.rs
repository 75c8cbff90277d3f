use vstd::prelude::*;

use crate::apath::{in_subtree, is_ancestor, lemma_lex_lt_asymmetric, strictly_sorted};
use crate::entry::{EntryV, Kind};
use crate::errors::Error;
use crate::excludes::{glob_match, globset_is_match};
use crate::options::{OptionsV, RestoreOptions};
use crate::report::Report;
use crate::restore::{
    apply_op, finish_nodes, lemma_finish_preserves_unrelated, lemma_replay_extend_none,
    lemma_replay_preserves_unrelated, lookup, op_target, replay, rooted, unique_paths, DeferredV,
    FsNodeV, OpV, RestoreTree,
};
use crate::stats::{sat_add, CopyStats};
use crate::tree::{apaths_of, ItemV, StoredTree};

verus! {

/// Whether a copy with these options includes the entry: at or below the
/// requested subtree, if any, and not matched by the exclusions.
pub open spec fn selected(opts: OptionsV, e: EntryV) -> bool {
    &&& (opts.only_subtree matches Some(p) ==> in_subtree(p, e.apath))
    &&& !glob_match(opts.exclude_patterns, e.apath)
}

/// The entries one copy run materializes, in source order: those the
/// options select, in the order the source yields them.
pub open spec fn plan(items: Seq<ItemV>, opts: OptionsV) -> Seq<ItemV>
    decreases items.len(),
{
    if items.len() == 0 {
        Seq::empty()
    } else {
        let rest = plan(items.drop_last(), opts);
        if selected(opts, items.last().entry) {
            rest.push(items.last())
        } else {
            rest
        }
    }
}

pub proof fn lemma_plan_len(items: Seq<ItemV>, opts: OptionsV)
    ensures
        plan(items, opts).len() <= items.len(),
    decreases items.len(),
{
    if items.len() > 0 {
        lemma_plan_len(items.drop_last(), opts);
    }
}

/// The materialization step for one planned entry.
pub open spec fn op_of(it: ItemV) -> OpV {
    match it.entry.kind {
        Kind::Dir => OpV::Dir { entry: it.entry },
        Kind::File => OpV::File { entry: it.entry, content: it.content },
        Kind::Symlink => OpV::Symlink { entry: it.entry },
    }
}

pub open spec fn ops_of(p: Seq<ItemV>) -> Seq<OpV> {
    p.map_values(|it: ItemV| op_of(it))
}

/// The deferred directory timestamps a plan records, in plan order.
pub open spec fn deferred_of(root: Seq<u8>, p: Seq<ItemV>) -> Seq<DeferredV>
    decreases p.len(),
{
    if p.len() == 0 {
        Seq::empty()
    } else {
        let rest = deferred_of(root, p.drop_last());
        if p.last().entry.kind is Dir {
            rest.push(
                DeferredV {
                    path: rooted(root, p.last().entry.apath),
                    mtime: p.last().entry.mtime,
                },
            )
        } else {
            rest
        }
    }
}

/// How many file entries the plan copies.
pub open spec fn files_total(p: Seq<ItemV>) -> int
    decreases p.len(),
{
    if p.len() == 0 {
        0
    } else {
        files_total(p.drop_last()) + if p.last().entry.kind is File {
            1int
        } else {
            0int
        }
    }
}

/// The bytes the plan copies, folded with the same clamped addition the
/// stats counter uses.
pub open spec fn bytes_total(p: Seq<ItemV>) -> int
    decreases p.len(),
{
    if p.len() == 0 {
        0
    } else {
        let rest = bytes_total(p.drop_last());
        if p.last().entry.kind is File {
            sat_add(rest, p.last().content.len() as int)
        } else {
            rest
        }
    }
}

/// The plain (unclamped) byte sum of the plan's files.
pub open spec fn sum_bytes(p: Seq<ItemV>) -> int
    decreases p.len(),
{
    if p.len() == 0 {
        0
    } else {
        sum_bytes(p.drop_last()) + if p.last().entry.kind is File {
            p.last().content.len() as int
        } else {
            0int
        }
    }
}

/// The filenames a run echoes: the plan's apaths when echoing is on.
pub open spec fn echoed(pr: bool, p: Seq<ItemV>) -> Seq<Seq<u8>> {
    if pr {
        apaths_of(p)
    } else {
        Seq::<Seq<u8>>::empty()
    }
}

pub proof fn lemma_files_total_bounds(p: Seq<ItemV>)
    ensures
        0 <= files_total(p) <= p.len(),
    decreases p.len(),
{
    if p.len() > 0 {
        lemma_files_total_bounds(p.drop_last());
    }
}

pub proof fn lemma_bytes_total_bounds(p: Seq<ItemV>)
    ensures
        0 <= bytes_total(p) <= u64::MAX,
    decreases p.len(),
{
    if p.len() > 0 {
        lemma_bytes_total_bounds(p.drop_last());
    }
}

/// As long as the true byte sum fits the counter, the counter is exact:
/// the reported byte total equals the sum of all copied files' lengths.
pub proof fn lemma_bytes_total_exact(p: Seq<ItemV>)
    requires
        sum_bytes(p) <= u64::MAX,
    ensures
        bytes_total(p) == sum_bytes(p),
    decreases p.len(),
{
    if p.len() > 0 {
        lemma_sum_bytes_nonneg(p.drop_last());
        lemma_bytes_total_exact(p.drop_last());
    }
}

pub proof fn lemma_sum_bytes_nonneg(p: Seq<ItemV>)
    ensures
        0 <= sum_bytes(p),
    decreases p.len(),
{
    if p.len() > 0 {
        lemma_sum_bytes_nonneg(p.drop_last());
    }
}

/// A longer source prefix only extends the plan.
pub proof fn lemma_plan_prefix(items: Seq<ItemV>, opts: OptionsV, i: int)
    requires
        0 <= i <= items.len(),
    ensures
        plan(items.take(i), opts).is_prefix_of(plan(items, opts)),
    decreases items.len() - i,
{
    if i == items.len() {
        assert(items.take(i) =~= items);
    } else {
        assert(items.take(i + 1).drop_last() =~= items.take(i));
        lemma_plan_prefix(items, opts, i + 1);
    }
}

/// The plan keeps the source's strictly ascending apath order, and every
/// planned item comes from the source.
pub proof fn lemma_plan_sorted(items: Seq<ItemV>, opts: OptionsV)
    requires
        strictly_sorted(apaths_of(items)),
    ensures
        strictly_sorted(apaths_of(plan(items, opts))),
        forall|i: int|
            0 <= i < plan(items, opts).len() ==> exists|j: int|
                0 <= j < items.len() && #[trigger] plan(items, opts)[i] == items[j],
    decreases items.len(),
{
    let p = plan(items, opts);
    if items.len() == 0 {
        assert(p.len() == 0);
    } else {
        let fore = items.drop_last();
        let q = plan(fore, opts);
        assert forall|i: int, j: int| 0 <= i < j < apaths_of(fore).len() implies crate::apath::lex_lt(
            #[trigger] apaths_of(fore)[i],
            #[trigger] apaths_of(fore)[j],
        ) by {
            assert(apaths_of(fore)[i] == apaths_of(items)[i]);
            assert(apaths_of(fore)[j] == apaths_of(items)[j]);
        }
        lemma_plan_sorted(fore, opts);
        if selected(opts, items.last().entry) {
            assert(p =~= q.push(items.last()));
            assert forall|i: int| 0 <= i < p.len() implies exists|j: int|
                0 <= j < items.len() && #[trigger] p[i] == items[j] by {
                if i < q.len() {
                    let j = choose|j: int| 0 <= j < fore.len() && #[trigger] q[i] == fore[j];
                    assert(p[i] == items[j]);
                } else {
                    assert(p[i] == items[items.len() - 1]);
                }
            }
            assert forall|i: int, j: int| 0 <= i < j < apaths_of(p).len() implies crate::apath::lex_lt(
                #[trigger] apaths_of(p)[i],
                #[trigger] apaths_of(p)[j],
            ) by {
                if j < q.len() {
                    assert(apaths_of(p)[i] == apaths_of(q)[i]);
                    assert(apaths_of(p)[j] == apaths_of(q)[j]);
                } else {
                    assert(p[j] == items.last());
                    if i < q.len() {
                        let k = choose|k: int| 0 <= k < fore.len() && #[trigger] q[i] == fore[k];
                        assert(apaths_of(p)[i] == fore[k].entry.apath);
                        assert(apaths_of(items)[k] == fore[k].entry.apath);
                        assert(apaths_of(items)[items.len() - 1] == items.last().entry.apath);
                    }
                }
            }
        } else {
            assert(p =~= q);
            assert forall|i: int| 0 <= i < p.len() implies exists|j: int|
                0 <= j < items.len() && #[trigger] p[i] == items[j] by {
                let j = choose|j: int| 0 <= j < fore.len() && #[trigger] q[i] == fore[j];
                assert(p[i] == items[j]);
            }
            assert forall|i: int, j: int| 0 <= i < j < apaths_of(p).len() implies crate::apath::lex_lt(
                #[trigger] apaths_of(p)[i],
                #[trigger] apaths_of(p)[j],
            ) by {
                assert(apaths_of(p)[i] == apaths_of(q)[i]);
                assert(apaths_of(p)[j] == apaths_of(q)[j]);
            }
        }
    }
}

/// Directories are materialized strictly before any of their descendants:
/// for every well-formed source, an ancestor stands at a smaller index of
/// the plan (and hence of the destination's operation history) than
/// anything below it.
pub proof fn lemma_directories_before_descendants(items: Seq<ItemV>, opts: OptionsV)
    requires
        strictly_sorted(apaths_of(items)),
    ensures
        forall|i: int, j: int|
            0 <= i < plan(items, opts).len() && 0 <= j < plan(items, opts).len() && is_ancestor(
                (#[trigger] plan(items, opts)[i]).entry.apath,
                (#[trigger] plan(items, opts)[j]).entry.apath,
            ) ==> i < j,
{
    let p = plan(items, opts);
    lemma_plan_sorted(items, opts);
    assert forall|i: int, j: int|
        0 <= i < p.len() && 0 <= j < p.len() && is_ancestor(
            (#[trigger] p[i]).entry.apath,
            (#[trigger] p[j]).entry.apath,
        ) implies i < j by {
        crate::apath::lemma_ancestor_lex_lt(p[i].entry.apath, p[j].entry.apath);
        if i > j {
            assert(crate::apath::lex_lt(apaths_of(p)[j], apaths_of(p)[i]));
            assert(apaths_of(p)[i] == p[i].entry.apath);
            assert(apaths_of(p)[j] == p[j].entry.apath);
            lemma_lex_lt_asymmetric(p[i].entry.apath, p[j].entry.apath);
        } else if i == j {
            assert(p[i].entry.apath.len() < p[j].entry.apath.len());
        }
    }
}

/// Drive one full pass over the source tree's entries into the
/// destination: filter each entry by subtree and exclusions, echo it if
/// asked, dispatch it by kind, and accumulate statistics.  Non-fatal
/// problems are reported and the walk continues; a fatal failure aborts
/// the walk, but the destination is still finished exactly once, so its
/// deferred state is released either way.
pub fn copy_tree(
    source: &StoredTree,
    dest: &mut RestoreTree,
    options: &RestoreOptions,
    report: &mut Report,
) -> (r: Result<CopyStats, Error>)
    requires
        source.wf(),
        old(dest).wf(),
        !old(dest).is_finished(),
    ensures
        final(dest).wf(),
        final(dest).root() == old(dest).root(),
        final(dest).sym_ok() == old(dest).sym_ok(),
        final(dest).is_finished(),
        old(report).problems_seq().is_prefix_of(final(report).problems_seq()),
        ({
            let p = plan(source@, options@);
            let ops = ops_of(p);
            let root = old(dest).root();
            let sym = old(dest).sym_ok();
            let init = old(dest).nodes_seq();
            match r {
                Ok(stats) => {
                    &&& replay(root, sym, init, ops) matches Some(s) && final(dest).nodes_seq()
                        == finish_nodes(s, old(dest).deferred_seq() + deferred_of(root, p))
                    &&& final(dest).ops_seq() == old(dest).ops_seq() + ops
                    &&& stats.files == files_total(p)
                    &&& stats.uncompressed_bytes == bytes_total(p)
                    &&& final(report).filenames_seq() == old(report).filenames_seq() + echoed(
                        options@.print_filenames,
                        p,
                    )
                },
                Err(e) => {
                    &&& e is Restore
                    &&& replay(root, sym, init, ops) is None
                    &&& exists|k: int|
                        0 <= k <= p.len() && (replay(root, sym, init, ops_of(p.take(k))) matches Some(
                            s,
                        ) && final(dest).nodes_seq() == finish_nodes(
                            s,
                            old(dest).deferred_seq() + deferred_of(root, p.take(k)),
                        ) && final(dest).ops_seq() == old(dest).ops_seq() + ops_of(#[trigger] p.take(k)))
                },
            }
        }),
{
    let ghost fullp = plan(source@, options@);
    let ghost root = old(dest).root();
    let ghost sym = old(dest).sym_ok();
    let ghost init = old(dest).nodes_seq();
    let mut stats = CopyStats { files: 0, uncompressed_bytes: 0 };
    let mut fatal: Option<Error> = None;
    let n = source.len();
    let mut i: usize = 0;
    proof {
        assert(source@.take(0) =~= Seq::<ItemV>::empty());
        assert(ops_of(plan(source@.take(0), options@)) =~= Seq::<OpV>::empty());
        assert(dest.ops_seq() =~= old(dest).ops_seq() + ops_of(plan(source@.take(0), options@)));
        assert(dest.deferred_seq() =~= old(dest).deferred_seq() + deferred_of(
            root,
            plan(source@.take(0), options@),
        ));
        assert(report.filenames_seq() =~= old(report).filenames_seq() + Seq::<Seq<u8>>::empty());
        assert(apaths_of(plan(source@.take(0), options@)) =~= Seq::<Seq<u8>>::empty());
    }
    while i < n && fatal.is_none()
        invariant
            i <= n,
            n == source@.len(),
            source.wf(),
            fullp == plan(source@, options@),
            dest.wf(),
            !dest.is_finished(),
            dest.root() == root,
            dest.sym_ok() == sym,
            old(dest).root() == root,
            old(dest).sym_ok() == sym,
            old(dest).nodes_seq() == init,
            old(report).problems_seq().is_prefix_of(report.problems_seq()),
            fatal is None ==> {
                let pp = plan(source@.take(i as int), options@);
                &&& replay(root, sym, init, ops_of(pp)) == Some(dest.nodes_seq())
                &&& dest.ops_seq() == old(dest).ops_seq() + ops_of(pp)
                &&& dest.deferred_seq() == old(dest).deferred_seq() + deferred_of(root, pp)
                &&& stats.files == files_total(pp)
                &&& stats.uncompressed_bytes == bytes_total(pp)
                &&& report.filenames_seq() == old(report).filenames_seq() + echoed(
                    options@.print_filenames,
                    pp,
                )
            },
            fatal is Some ==> {
                &&& fatal matches Some(f) && f is Restore
                &&& replay(root, sym, init, ops_of(fullp)) is None
                &&& exists|k: int|
                    0 <= k <= fullp.len() && (replay(root, sym, init, ops_of(fullp.take(k))) matches
                        Some(s) && dest.nodes_seq() == s && dest.ops_seq() == old(dest).ops_seq()
                        + ops_of(#[trigger] fullp.take(k)) && dest.deferred_seq() == old(
                        dest,
                    ).deferred_seq() + deferred_of(root, fullp.take(k)))
            },
        decreases n - i,
    {
        let ghost pp = plan(source@.take(i as int), options@);
        let ghost it = source@[i as int];
        let entry = source.entry_at(i);
        let in_subtree_ok = match &options.only_subtree {
            None => true,
            Some(pfx) => entry.apath().is_in_subtree(pfx),
        };
        let excluded = globset_is_match(&options.excludes, entry.apath().as_bytes());
        let is_sel = in_subtree_ok && !excluded;
        proof {
            assert(is_sel == selected(options@, it.entry));
            assert(source@.take(i + 1).drop_last() =~= source@.take(i as int));
            assert(source@.take(i + 1).last() == it);
        }
        let ghost ppnext = plan(source@.take(i + 1), options@);
        if is_sel {
            proof {
                assert(ppnext == pp.push(it));
                assert(ops_of(ppnext) =~= ops_of(pp).push(op_of(it)));
                assert(ops_of(ppnext).drop_last() =~= ops_of(pp));
                lemma_files_total_bounds(ppnext);
                lemma_plan_prefix(source@.take(i + 1), options@, i as int);
                assert(source@.take(i + 1).take(i as int) =~= source@.take(i as int));
                lemma_plan_len(source@.take(i + 1), options@);
            }
            if options.print_filenames {
                report.echo_filename(entry.apath().to_vec());
                proof {
                    assert(apaths_of(ppnext) =~= apaths_of(pp).push(it.entry.apath));
                    assert(old(report).filenames_seq() + apaths_of(pp.push(it)) =~= (old(
                        report,
                    ).filenames_seq() + apaths_of(pp)).push(it.entry.apath));
                }
            }
            match entry.kind() {
                Kind::Dir => {
                    let ghost older = dest.nodes_seq();
                    match dest.copy_dir(entry) {
                        Ok(()) => {},
                        Err(e) => {
                            // a directory failure other than already-exists
                            // would be fatal; the in-memory destination
                            // never produces one
                            proof {
                                assert(false);
                            }
                            fatal = Some(e);
                        },
                    }
                    proof {
                        assert(apply_op(root, sym, older, op_of(it)) == Some(dest.nodes_seq()));
                        assert(replay(root, sym, init, ops_of(ppnext)) == Some(dest.nodes_seq()));
                        assert(deferred_of(root, ppnext) =~= deferred_of(root, pp).push(
                            DeferredV { path: rooted(root, it.entry.apath), mtime: it.entry.mtime },
                        ));
                        assert(old(dest).deferred_seq() + deferred_of(root, ppnext) =~= (old(
                            dest,
                        ).deferred_seq() + deferred_of(root, pp)).push(
                            DeferredV { path: rooted(root, it.entry.apath), mtime: it.entry.mtime },
                        ));
                        assert(old(dest).ops_seq() + ops_of(ppnext) =~= (old(dest).ops_seq()
                            + ops_of(pp)).push(op_of(it)));
                    }
                },
                Kind::File => {
                    match source.file_contents(i) {
                        Ok(content) => {
                            let ghost older = dest.nodes_seq();
                            let clen: u64 = content.len() as u64;
                            match dest.copy_file(entry, content) {
                                Ok(s) => {
                                    proof {
                                        assert(apply_op(root, sym, older, op_of(it)) == Some(
                                            dest.nodes_seq(),
                                        ));
                                        assert(replay(root, sym, init, ops_of(ppnext)) == Some(
                                            dest.nodes_seq(),
                                        ));
                                        lemma_files_total_bounds(pp);
                                        lemma_bytes_total_bounds(pp);
                                        assert(deferred_of(root, ppnext) =~= deferred_of(root, pp));
                                        assert(old(dest).ops_seq() + ops_of(ppnext) =~= (old(
                                            dest,
                                        ).ops_seq() + ops_of(pp)).push(op_of(it)));
                                    }
                                    stats.add(&s);
                                    let one = CopyStats { files: 1, uncompressed_bytes: 0 };
                                    stats.add(&one);
                                    proof {
                                        assert(stats.files == files_total(ppnext));
                                        assert(stats.uncompressed_bytes == bytes_total(ppnext));
                                    }
                                },
                                Err(e) => {
                                    // failure to write file content is
                                    // fatal for the whole run
                                    proof {
                                        assert(apply_op(root, sym, older, op_of(it)) is None);
                                        assert(replay(root, sym, init, ops_of(ppnext)) is None);
                                        lemma_plan_prefix(source@, options@, i + 1);
                                        let m = ppnext.len() as int;
                                        assert(fullp.take(m) =~= ppnext);
                                        assert(ops_of(fullp).take(m) =~= ops_of(fullp.take(m)));
                                        assert(replay(root, sym, init, ops_of(fullp).take(m)) is None);
                                        lemma_replay_extend_none(root, sym, init, ops_of(fullp), m);
                                        let k = pp.len() as int;
                                        assert(fullp.take(k) =~= pp);
                                        assert(replay(root, sym, init, ops_of(fullp.take(k))) == Some(
                                            dest.nodes_seq(),
                                        ));
                                    }
                                    fatal = Some(e);
                                },
                            }
                        },
                        Err(e) => {
                            // unreadable file content is fatal; the stored
                            // tree always yields content for file entries
                            proof {
                                assert(false);
                            }
                            fatal = Some(e);
                        },
                    }
                },
                Kind::Symlink => {
                    let ghost older = dest.nodes_seq();
                    match dest.copy_symlink(entry, report) {
                        Ok(()) => {
                            proof {
                                assert(apply_op(root, sym, older, op_of(it)) == Some(
                                    dest.nodes_seq(),
                                ));
                                assert(replay(root, sym, init, ops_of(ppnext)) == Some(
                                    dest.nodes_seq(),
                                ));
                                assert(deferred_of(root, ppnext) =~= deferred_of(root, pp));
                                assert(old(dest).ops_seq() + ops_of(ppnext) =~= (old(
                                    dest,
                                ).ops_seq() + ops_of(pp)).push(op_of(it)));
                            }
                        },
                        Err(e) => {
                            proof {
                                assert(apply_op(root, sym, older, op_of(it)) is None);
                                assert(replay(root, sym, init, ops_of(ppnext)) is None);
                                lemma_plan_prefix(source@, options@, i + 1);
                                let m = ppnext.len() as int;
                                assert(fullp.take(m) =~= ppnext);
                                assert(ops_of(fullp).take(m) =~= ops_of(fullp.take(m)));
                                assert(replay(root, sym, init, ops_of(fullp).take(m)) is None);
                                lemma_replay_extend_none(root, sym, init, ops_of(fullp), m);
                                let k = pp.len() as int;
                                assert(fullp.take(k) =~= pp);
                                assert(replay(root, sym, init, ops_of(fullp.take(k))) == Some(
                                    dest.nodes_seq(),
                                ));
                            }
                            fatal = Some(e);
                        },
                    }
                },
            }
        } else {
            proof {
                assert(ppnext =~= pp);
            }
        }
        i += 1;
    }
    proof {
        if fatal is None {
            assert(i == n);
            assert(source@.take(n as int) =~= source@);
        }
    }
    let ghost predest = *dest;
    let fin = match dest.finish(report) {
        Ok(s) => s,
        Err(_) => {
            proof {
                assert(false);
            }
            CopyStats { files: 0, uncompressed_bytes: 0 }
        },
    };
    stats.add(&fin);
    proof {
        if fatal is None {
            lemma_files_total_bounds(fullp);
            lemma_bytes_total_bounds(fullp);
        }
    }
    match fatal {
        None => Ok(stats),
        Some(e) => Err(e),
    }
}

/// Every deferred timestamp a plan records names a path some planned
/// entry resolves to.
pub proof fn lemma_deferred_paths(root: Seq<u8>, p: Seq<ItemV>, q: Seq<u8>)
    requires
        forall|k: int| 0 <= k < p.len() ==> rooted(root, (#[trigger] p[k]).entry.apath) != q,
    ensures
        forall|k: int|
            0 <= k < deferred_of(root, p).len() ==> (#[trigger] deferred_of(root, p)[k]).path != q,
    decreases p.len(),
{
    if p.len() > 0 {
        assert forall|k: int| 0 <= k < p.drop_last().len() implies rooted(
            root,
            (#[trigger] p.drop_last()[k]).entry.apath,
        ) != q by {
            assert(p.drop_last()[k] == p[k]);
        }
        lemma_deferred_paths(root, p.drop_last(), q);
        let d = deferred_of(root, p);
        let rest = deferred_of(root, p.drop_last());
        assert(rooted(root, p[p.len() - 1].entry.apath) != q);
        assert forall|k: int| 0 <= k < d.len() implies (#[trigger] d[k]).path != q by {
            if k < rest.len() {
                assert(d[k] == rest[k]);
            }
        }
    }
}

/// An overwriting restore leaves every pre-existing node untouched whose
/// path no planned entry resolves to, through both the copy pass and the
/// deferred timestamp fix-up.
pub proof fn lemma_overwrite_preserves_unrelated(
    root: Seq<u8>,
    sym_ok: bool,
    init: Seq<FsNodeV>,
    p: Seq<ItemV>,
    q: Seq<u8>,
)
    requires
        unique_paths(init),
        forall|k: int| 0 <= k < p.len() ==> rooted(root, (#[trigger] p[k]).entry.apath) != q,
        replay(root, sym_ok, init, ops_of(p)) is Some,
    ensures
        lookup(
            finish_nodes(replay(root, sym_ok, init, ops_of(p))->Some_0, deferred_of(root, p)),
            q,
        ) == lookup(init, q),
{
    let ops = ops_of(p);
    assert forall|k: int| 0 <= k < ops.len() implies op_target(root, #[trigger] ops[k]) != q by {
        assert(ops[k] == op_of(p[k]));
    }
    lemma_replay_preserves_unrelated(root, sym_ok, init, ops, q);
    lemma_deferred_paths(root, p, q);
    lemma_finish_preserves_unrelated(
        replay(root, sym_ok, init, ops)->Some_0,
        deferred_of(root, p),
        q,
    );
}

} // verus!
