//! Glob sets of the `globset` crate, seen as the lists of patterns they
//! were built from.

use vstd::prelude::*;
use globset::Error as GlobsetError;
use globset::{Glob, GlobSet, GlobSetBuilder};

verus! {

#[verifier::external_type_specification]
#[verifier::external_body]
pub struct ExGlob(Glob);

#[verifier::external_type_specification]
#[verifier::external_body]
pub struct ExGlobSetBuilder(GlobSetBuilder);

#[verifier::external_type_specification]
#[verifier::external_body]
pub struct ExGlobSet(GlobSet);

#[verifier::external_type_specification]
#[verifier::external_body]
pub struct ExGlobError(GlobsetError);

/// Whether `Glob::new` accepts `pattern`.
pub uninterp spec fn glob_parses(pattern: Seq<char>) -> bool;

/// The pattern a glob holds (what `Glob::glob` gives back).
pub uninterp spec fn glob_text(g: Glob) -> Seq<char>;

/// The patterns a builder holds, in the order they were added.
pub uninterp spec fn builder_patterns(b: GlobSetBuilder) -> Seq<Seq<char>>;

/// The patterns a set was built from, in order.
pub uninterp spec fn set_patterns(s: GlobSet) -> Seq<Seq<char>>;

/// Whether `GlobSetBuilder::build` accepts these patterns.
pub uninterp spec fn set_builds(patterns: Seq<Seq<char>>) -> bool;

/// Whether a set built of `patterns` matches the path `path`
/// (`GlobSet::is_match`).
pub uninterp spec fn set_matches(patterns: Seq<Seq<char>>, path: Seq<char>) -> bool;

/// `Glob::new`: a glob of `pattern` with the default options, or the
/// reason the pattern is refused; the glob holds the pattern.
#[verifier::external_body]
pub(crate) fn glob_new(pattern: &str) -> (r: Result<Glob, GlobsetError>)
    ensures
        r is Ok <==> glob_parses(pattern@),
        r matches Ok(g) ==> glob_text(g) == pattern@,
{
    Glob::new(pattern)
}

/// `GlobSetBuilder::new`: a builder that holds no pattern.
#[verifier::external_body]
pub(crate) fn builder_new() -> (r: GlobSetBuilder)
    ensures
        builder_patterns(r) == Seq::<Seq<char>>::empty(),
{
    GlobSetBuilder::new()
}

/// `GlobSetBuilder::add`: appends the glob's pattern.
#[verifier::external_body]
pub(crate) fn builder_add(b: &mut GlobSetBuilder, g: Glob)
    ensures
        builder_patterns(*final(b)) == builder_patterns(*old(b)).push(glob_text(g)),
{
    b.add(g);
}

/// `GlobSetBuilder::build`: a set of the builder's patterns, or the
/// reason they are refused together; an empty builder always builds.
#[verifier::external_body]
pub(crate) fn builder_build(b: &GlobSetBuilder) -> (r: Result<GlobSet, GlobsetError>)
    ensures
        r is Ok <==> set_builds(builder_patterns(*b)),
        builder_patterns(*b).len() == 0 ==> r is Ok,
        r matches Ok(s) ==> set_patterns(s) == builder_patterns(*b),
{
    b.build()
}

/// `GlobSet::is_empty`: whether the set was built of no pattern.
#[verifier::external_body]
pub(crate) fn set_is_empty(s: &GlobSet) -> (r: bool)
    ensures
        r == (set_patterns(*s).len() == 0),
{
    s.is_empty()
}

/// `GlobSet::is_match` on the path `path`; an empty set matches nothing.
#[verifier::external_body]
pub(crate) fn set_is_match(s: &GlobSet, path: &str) -> (r: bool)
    ensures
        r == set_matches(set_patterns(*s), path@),
        set_patterns(*s).len() == 0 ==> !r,
{
    s.is_match(path)
}

} // verus!
