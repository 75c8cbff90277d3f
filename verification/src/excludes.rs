use vstd::prelude::*;
use vstd::slice::slice_index_get;

use globset::GlobSet;
use globset::GlobSetBuilder;

use crate::errors::Error;

verus! {

#[verifier::external_type_specification]
#[verifier::external_body]
pub struct ExGlobSet(globset::GlobSet);

#[verifier::external_type_specification]
#[verifier::external_body]
pub struct ExGlobSetBuilder(globset::GlobSetBuilder);

/// The glob patterns a compiled matcher was built from.
pub uninterp spec fn globset_patterns(g: GlobSet) -> Seq<Seq<char>>;

/// The glob patterns added to a matcher builder so far.
pub uninterp spec fn builder_patterns(b: GlobSetBuilder) -> Seq<Seq<char>>;

/// Whether a pattern is accepted by the glob syntax.
pub uninterp spec fn glob_ok(pat: Seq<char>) -> bool;

/// Whether any of the patterns matches the path; a function of the
/// patterns and the path alone.
pub uninterp spec fn glob_match(patterns: Seq<Seq<char>>, path: Seq<u8>) -> bool;

/// Relies on globset::GlobSet::empty: "Create an empty GlobSet. An empty
/// set matches nothing."  The returned set holds no patterns.
#[verifier::external_body]
fn globset_empty() -> (g: GlobSet)
    ensures
        globset_patterns(g) == Seq::<Seq<char>>::empty(),
{
    GlobSet::empty()
}

/// Relies on globset::GlobSetBuilder::new: the fresh builder holds no
/// patterns.
#[verifier::external_body]
fn globset_builder_new() -> (b: GlobSetBuilder)
    ensures
        builder_patterns(b) == Seq::<Seq<char>>::empty(),
{
    GlobSetBuilder::new()
}

/// Relies on globset::Glob::new, which accepts or rejects the pattern's
/// syntax, and globset::GlobSetBuilder::add, which appends the parsed glob
/// to the builder's pattern list.
#[verifier::external_body]
fn globset_builder_add(b: &mut GlobSetBuilder, pat: &str) -> (r: bool)
    ensures
        r == glob_ok(pat@),
        r ==> builder_patterns(*final(b)) == builder_patterns(*old(b)).push(pat@),
        !r ==> builder_patterns(*final(b)) == builder_patterns(*old(b)),
{
    match globset::Glob::new(pat) {
        Ok(g) => {
            b.add(g);
            true
        },
        Err(_) => false,
    }
}

/// Relies on globset::GlobSetBuilder::build: on success the compiled set
/// holds exactly the patterns added to the builder.
#[verifier::external_body]
fn globset_builder_build(b: &GlobSetBuilder) -> (r: Option<GlobSet>)
    ensures
        r matches Some(g) ==> globset_patterns(g) == builder_patterns(*b),
{
    b.build().ok()
}

/// Relies on globset::GlobSet::is_match: true when any pattern in the set
/// matches the path; deterministic in the set's patterns and the path; an
/// empty set matches nothing.
#[verifier::external_body]
pub(crate) fn globset_is_match(g: &GlobSet, path: &Vec<u8>) -> (r: bool)
    ensures
        r == glob_match(globset_patterns(*g), path@),
        globset_patterns(*g).len() == 0 ==> r == false,
{
    g.is_match(&*String::from_utf8_lossy(path))
}

/// A matcher that excludes nothing, the default for a restore.
pub fn excludes_nothing() -> (g: GlobSet)
    ensures
        globset_patterns(g) == Seq::<Seq<char>>::empty(),
{
    globset_empty()
}

/// Compile user-supplied glob patterns into one exclusion matcher.
pub fn from_strings(patterns: &[&str]) -> (r: Result<GlobSet, Error>)
    ensures
        r matches Ok(g) ==> globset_patterns(g) == patterns@.map_values(|p: &str| p@),
        (exists|i: int| 0 <= i < patterns@.len() && !glob_ok(patterns@[i]@)) ==> r is Err,
        r is Err ==> r->Err_0 is BadGlob,
{
    let ghost want = patterns@.map_values(|p: &str| p@);
    let mut b = globset_builder_new();
    let n = patterns.len();
    let mut i: usize = 0;
    proof {
        assert(builder_patterns(b) =~= want.take(0));
    }
    while i < n
        invariant
            i <= n,
            n == patterns@.len(),
            want == patterns@.map_values(|p: &str| p@),
            builder_patterns(b) == want.take(i as int),
            forall|j: int| 0 <= j < i ==> glob_ok(patterns@[j]@),
        decreases n - i,
    {
        let pat: &str = *slice_index_get(patterns, i);
        if !globset_builder_add(&mut b, pat) {
            return Err(Error::BadGlob);
        }
        proof {
            assert(want.take(i as int).push(patterns@[i as int]@) =~= want.take(i + 1));
        }
        i += 1;
    }
    proof {
        assert(want.take(n as int) =~= want);
    }
    match globset_builder_build(&b) {
        Some(g) => Ok(g),
        None => Err(Error::BadGlob),
    }
}

} // verus!
