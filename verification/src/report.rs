use vstd::prelude::*;

verus! {

/// Image of a [`Problem`].
pub enum ProblemV {
    SymlinkMissingTarget { apath: Seq<u8> },
    SymlinksUnsupported { apath: Seq<u8> },
    DirMtimeUnapplied { path: Seq<u8> },
}

/// A non-fatal metadata-fidelity degradation: the run continues, but the
/// restored tree is a best-effort approximation for the named item.
#[derive(Debug)]
pub enum Problem {
    /// A symlink entry carries no recorded target.
    SymlinkMissingTarget { apath: Vec<u8> },
    /// The destination platform cannot materialize symlinks.
    SymlinksUnsupported { apath: Vec<u8> },
    /// A deferred directory timestamp could not be applied.
    DirMtimeUnapplied { path: Vec<u8> },
}

impl View for Problem {
    type V = ProblemV;

    open spec fn view(&self) -> ProblemV {
        match self {
            Problem::SymlinkMissingTarget { apath } => ProblemV::SymlinkMissingTarget {
                apath: apath@,
            },
            Problem::SymlinksUnsupported { apath } => ProblemV::SymlinksUnsupported {
                apath: apath@,
            },
            Problem::DirMtimeUnapplied { path } => ProblemV::DirMtimeUnapplied { path: path@ },
        }
    }
}

/// The reporting channel: an in-memory sink for filename echoes and problem
/// notices.  Nothing read from it ever influences control flow.
pub struct Report {
    pub problems: Vec<Problem>,
    pub filenames: Vec<Vec<u8>>,
}

impl Report {
    pub open spec fn problems_seq(self) -> Seq<ProblemV> {
        self.problems@.map_values(|p: Problem| p@)
    }

    pub open spec fn filenames_seq(self) -> Seq<Seq<u8>> {
        self.filenames@.map_values(|f: Vec<u8>| f@)
    }

    pub fn new() -> (r: Report)
        ensures
            r.problems_seq() == Seq::<ProblemV>::empty(),
            r.filenames_seq() == Seq::<Seq<u8>>::empty(),
    {
        let r = Report { problems: Vec::new(), filenames: Vec::new() };
        proof {
            assert(r.problems_seq() =~= Seq::<ProblemV>::empty());
            assert(r.filenames_seq() =~= Seq::<Seq<u8>>::empty());
        }
        r
    }

    /// Record a non-fatal problem.
    pub fn problem(&mut self, p: Problem)
        ensures
            final(self).problems_seq() == old(self).problems_seq().push(p@),
            final(self).filenames_seq() == old(self).filenames_seq(),
    {
        let ghost pv = p@;
        self.problems.push(p);
        proof {
            assert(self.problems_seq() =~= old(self).problems_seq().push(pv));
            assert(self.filenames_seq() =~= old(self).filenames_seq());
        }
    }

    /// Echo a filename that is about to be restored.
    pub fn echo_filename(&mut self, apath: Vec<u8>)
        ensures
            final(self).filenames_seq() == old(self).filenames_seq().push(apath@),
            final(self).problems_seq() == old(self).problems_seq(),
    {
        let ghost av = apath@;
        self.filenames.push(apath);
        proof {
            assert(self.filenames_seq() =~= old(self).filenames_seq().push(av));
            assert(self.problems_seq() =~= old(self).problems_seq());
        }
    }
}

} // verus!
