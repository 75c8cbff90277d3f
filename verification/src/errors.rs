use vstd::prelude::*;

verus! {

/// Terminating failures of a restore run.  Metadata-fidelity degradations
/// are not errors: they are reported as [`crate::report::Problem`]s.
#[derive(Debug)]
pub enum Error {
    /// The restore destination exists and already holds entries.
    DestinationNotEmpty { path: Vec<u8> },
    /// A destination path could not be materialized.
    Restore { path: Vec<u8> },
    /// A file entry's content could not be produced by the source tree.
    ContentUnavailable { apath: Vec<u8> },
    /// The archive holds no fully committed band.
    NoCompleteBands,
    /// The explicitly selected band is absent from the archive.
    BandNotFound,
    /// An exclusion pattern could not be compiled.
    BadGlob,
}

impl Error {
    /// A short human-readable description of the error kind.
    pub fn describe(&self) -> (m: &'static str)
        ensures
            self is DestinationNotEmpty ==> m@ == "Destination directory not empty"@,
            self is NoCompleteBands ==> m@ == "Archive has no complete bands"@,
            self is BandNotFound ==> m@ == "Band not found"@,
    {
        match self {
            Error::DestinationNotEmpty { .. } => "Destination directory not empty",
            Error::Restore { .. } => "Failed to restore an entry",
            Error::ContentUnavailable { .. } => "File content unavailable in source tree",
            Error::NoCompleteBands => "Archive has no complete bands",
            Error::BandNotFound => "Band not found",
            Error::BadGlob => "Failed to parse exclusion glob",
        }
    }
}

} // verus!
