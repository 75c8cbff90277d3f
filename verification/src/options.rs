use vstd::prelude::*;

use globset::GlobSet;

use crate::apath::Apath;
use crate::band::{BandPolicyV, BandSelectionPolicy};
use crate::excludes::{excludes_nothing, globset_patterns};

verus! {

/// Image of a [`RestoreOptions`].
pub struct OptionsV {
    pub print_filenames: bool,
    pub exclude_patterns: Seq<Seq<char>>,
    pub overwrite: bool,
    pub band_selection: BandPolicyV,
    pub only_subtree: Option<Seq<u8>>,
}

/// Description of how to restore a tree.  Constructed once per invocation
/// and read-only thereafter.
pub struct RestoreOptions {
    /// Echo each restored apath to the reporting channel.
    pub print_filenames: bool,
    /// Compiled exclusion matcher; the default excludes nothing.
    pub excludes: GlobSet,
    /// Skip the destination emptiness safety check.
    pub overwrite: bool,
    /// The band to select, by default the last complete one.
    pub band_selection: BandSelectionPolicy,
    /// Restrict the restore to one subtree of the source.
    pub only_subtree: Option<Apath>,
}

impl View for RestoreOptions {
    type V = OptionsV;

    open spec fn view(&self) -> OptionsV {
        OptionsV {
            print_filenames: self.print_filenames,
            exclude_patterns: globset_patterns(self.excludes),
            overwrite: self.overwrite,
            band_selection: self.band_selection@,
            only_subtree: match self.only_subtree {
                Some(p) => Some(p@),
                None => None,
            },
        }
    }
}

impl Default for RestoreOptions {
    /// No echoing, no exclusions, no overwriting, the latest closed band,
    /// the whole tree.
    fn default() -> (o: RestoreOptions)
        ensures
            o@.print_filenames == false,
            o@.exclude_patterns == Seq::<Seq<char>>::empty(),
            o@.overwrite == false,
            o@.band_selection is LatestClosed,
            o@.only_subtree is None,
    {
        RestoreOptions {
            print_filenames: false,
            excludes: excludes_nothing(),
            overwrite: false,
            band_selection: BandSelectionPolicy::LatestClosed,
            only_subtree: None,
        }
    }
}

} // verus!
