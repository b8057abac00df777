use vstd::prelude::*;

verus! {

// ---------------------------------------------------------------------------
// Version ordering, provided by the version-compare crate.
//
// The backend's ordering of two version strings (numeric segments compared
// numerically, alphabetic segments lexically, missing trailing segments
// treated as lower) is not restated here; its outcome is only given a name,
// and the facts below are the ones its source and documentation plainly
// show.
// ---------------------------------------------------------------------------

/// Mirror of the comparison operators reported by the version comparison
/// backend.
#[derive(Copy, Clone, Debug, PartialEq, Eq, Structural)]
pub enum RawCmp {
    Eq,
    Ne,
    Gt,
    Ge,
    Lt,
    Le,
}

/// What `version_compare::compare` returns for two version strings; `None`
/// stands for its parse failure.
pub uninterp spec fn version_cmp_of(a: Seq<char>, b: Seq<char>) -> Option<RawCmp>;

/// Whether `version_compare::Version::from` accepts a version string.
pub uninterp spec fn version_parseable(s: Seq<char>) -> bool;

/// Relies on `version_compare::Version::from`: it accepts or rejects a
/// version string depending on its characters alone.
#[verifier::external_body]
pub(crate) fn vc_parseable(s: &str) -> (r: bool)
    ensures
        r == version_parseable(s@),
{
    match version_compare::Version::from(s) {
        Some(_) => true,
        None => false,
    }
}

/// Relies on `version_compare::compare`.  Its result depends on the two
/// strings alone.  Per its documentation it returns only `Eq`, `Lt` or `Gt`,
/// and it fails exactly when `Version::from` rejects either string.  Its
/// part-wise comparison loop is mirror-symmetric in its two arguments (the
/// source flips the result when it swaps them), which gives the antisymmetry
/// facts; identical strings split into identical parts, which compare equal.
#[verifier::external_body]
pub(crate) fn vc_compare(a: &str, b: &str) -> (r: Option<RawCmp>)
    ensures
        r == version_cmp_of(a@, b@),
        (r is Some) == (version_parseable(a@) && version_parseable(b@)),
        r is None ==> version_cmp_of(b@, a@) is None,
        r is Some ==> (r == Some(RawCmp::Eq) || r == Some(RawCmp::Lt) || r == Some(RawCmp::Gt)),
        a@ == b@ && version_parseable(a@) ==> r == Some(RawCmp::Eq),
        r == Some(RawCmp::Gt) ==> version_cmp_of(b@, a@) == Some(RawCmp::Lt),
        r == Some(RawCmp::Lt) ==> version_cmp_of(b@, a@) == Some(RawCmp::Gt),
        r == Some(RawCmp::Eq) ==> version_cmp_of(b@, a@) == Some(RawCmp::Eq),
{
    match version_compare::compare(a, b) {
        Ok(version_compare::Cmp::Eq) => Some(RawCmp::Eq),
        Ok(version_compare::Cmp::Ne) => Some(RawCmp::Ne),
        Ok(version_compare::Cmp::Gt) => Some(RawCmp::Gt),
        Ok(version_compare::Cmp::Ge) => Some(RawCmp::Ge),
        Ok(version_compare::Cmp::Lt) => Some(RawCmp::Lt),
        Ok(version_compare::Cmp::Le) => Some(RawCmp::Le),
        Err(()) => None,
    }
}

/// Three-way comparison outcome of two version-strings.  `Equal` covers both
/// provable equality and the backend's failure to order the two strings: a
/// deliberate, conservative merge, so that a tie is never auto-deleted.
#[derive(Copy, Clone, Debug, PartialEq, Eq, Structural)]
pub enum ComparisonResult {
    Greater,
    Less,
    Equal,
}

/// The ordering policy over the backend's raw outcome: a raw greater-than
/// means strictly newer, a raw less-than strictly older, and everything else
/// (equality, an unordered pair, an unreadable version) degrades to a tie.
pub open spec fn cmp_of(a: Seq<char>, b: Seq<char>) -> ComparisonResult {
    match version_cmp_of(a, b) {
        Some(RawCmp::Gt) => ComparisonResult::Greater,
        Some(RawCmp::Ge) => ComparisonResult::Greater,
        Some(RawCmp::Lt) => ComparisonResult::Less,
        Some(RawCmp::Le) => ComparisonResult::Less,
        _ => ComparisonResult::Equal,
    }
}

} // verus!
