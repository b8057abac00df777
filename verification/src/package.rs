use vstd::prelude::*;
use vstd::string::*;

use crate::vercmp::cmp_of;
use crate::vercmp::vc_compare;
use crate::vercmp::vc_parseable;
use crate::vercmp::version_parseable;
use crate::vercmp::ComparisonResult;
use crate::vercmp::RawCmp;

verus! {

// ---------------------------------------------------------------------------
// The file-name convention
//
// A package file is named `<name>-<version>-<release>-<arch>.pkg.tar.<algo>`.
// The split is right-anchored: the package name may itself contain hyphens,
// so the version, release and architecture tokens are found working backward
// from the end of the name.  `version` and `release` are hyphen-free and
// non-empty; the trailing token must be exactly `<arch>.pkg.tar.<algo>` with
// `arch` and `algo` free of dots.
// ---------------------------------------------------------------------------

/// Index of the last occurrence of `c` in `s`, or -1 if `c` does not occur.
pub open spec fn last_ix(s: Seq<char>, c: char) -> int
    decreases s.len(),
{
    if s.len() == 0 {
        -1
    } else if s[s.len() - 1] == c {
        s.len() - 1
    } else {
        last_ix(s.drop_last(), c)
    }
}

/// Index of the first occurrence of `c` in `s`, or -1 if `c` does not occur.
pub open spec fn first_ix(s: Seq<char>, c: char) -> int
    decreases s.len(),
{
    if s.len() == 0 {
        -1
    } else if s[0] == c {
        0
    } else {
        let r = first_ix(s.skip(1), c);
        if r < 0 {
            -1
        } else {
            r + 1
        }
    }
}

pub proof fn lemma_last_ix(s: Seq<char>, c: char)
    ensures
        -1 <= last_ix(s, c) < s.len(),
        last_ix(s, c) >= 0 ==> s[last_ix(s, c)] == c,
        forall|j: int| last_ix(s, c) < j < s.len() ==> s[j] != c,
    decreases s.len(),
{
    if s.len() > 0 && s[s.len() - 1] != c {
        lemma_last_ix(s.drop_last(), c);
        assert(forall|j: int|
            0 <= j < s.len() - 1 ==> s[j] == s.drop_last()[j]);
    }
}

pub proof fn lemma_first_ix(s: Seq<char>, c: char)
    ensures
        -1 <= first_ix(s, c) < s.len(),
        first_ix(s, c) >= 0 ==> s[first_ix(s, c)] == c,
        forall|j: int| 0 <= j < first_ix(s, c) ==> s[j] != c,
        first_ix(s, c) == -1 ==> forall|j: int| 0 <= j < s.len() ==> s[j] != c,
    decreases s.len(),
{
    if s.len() > 0 && s[0] != c {
        lemma_first_ix(s.skip(1), c);
        assert forall|j: int| 0 <= j < first_ix(s, c) implies s[j] != c by {
            if j > 0 {
                assert(s[j] == s.skip(1)[j - 1]);
            }
        }
        if first_ix(s, c) == -1 {
            assert forall|j: int| 0 <= j < s.len() implies s[j] != c by {
                if j > 0 {
                    assert(s[j] == s.skip(1)[j - 1]);
                }
            }
        }
    }
}

/// Index of the hyphen separating the release from the trailing
/// `<arch>.pkg.tar.<algo>` token: the last hyphen of the name.
pub open spec fn h3_of(s: Seq<char>) -> int {
    last_ix(s, '-')
}

/// Index of the hyphen separating the version from the release.
pub open spec fn h2_of(s: Seq<char>) -> int {
    last_ix(s.take(h3_of(s)), '-')
}

/// Index of the hyphen separating the package name from the version.
pub open spec fn h1_of(s: Seq<char>) -> int {
    last_ix(s.take(h2_of(s)), '-')
}

/// The trailing token is exactly `<arch>.pkg.tar.<algo>`, with `arch` and
/// `algo` free of dots (either may be empty).
pub open spec fn valid_ext(t: Seq<char>) -> bool {
    let a = first_ix(t, '.');
    &&& 0 <= a
    &&& a + 9 <= t.len()
    &&& t[a + 1] == 'p'
    &&& t[a + 2] == 'k'
    &&& t[a + 3] == 'g'
    &&& t[a + 4] == '.'
    &&& t[a + 5] == 't'
    &&& t[a + 6] == 'a'
    &&& t[a + 7] == 'r'
    &&& t[a + 8] == '.'
    &&& forall|j: int| a + 9 <= j < t.len() ==> t[j] != '.'
}

/// A file name follows the convention: it has at least three hyphens, the
/// version and release tokens between the last three hyphens are non-empty,
/// and the trailing token is a well-formed extension.
pub open spec fn valid_pkg_filename(s: Seq<char>) -> bool {
    &&& h3_of(s) >= 0
    &&& h2_of(s) >= 0
    &&& h1_of(s) >= 0
    &&& h2_of(s) >= h1_of(s) + 2
    &&& h3_of(s) >= h2_of(s) + 2
    &&& valid_ext(s.skip(h3_of(s) + 1))
}

/// The package name of a conforming file name: everything before the third
/// hyphen from the end.
pub open spec fn spec_pkg_name(s: Seq<char>) -> Seq<char> {
    s.take(h1_of(s))
}

/// The version-string of a conforming file name: the `<version>-<release>`
/// token, kept verbatim for the comparator.
pub open spec fn spec_pkgver(s: Seq<char>) -> Seq<char> {
    s.subrange(h1_of(s) + 1, h3_of(s))
}

/// Reassembling `name + "-" + version-string` reproduces the stem of the
/// file name: everything before the final `-<arch>.pkg.tar.<algo>` token.
/// This is the round-trip guarantee of the right-anchored split.
pub proof fn lemma_parse_round_trip(s: Seq<char>)
    requires
        valid_pkg_filename(s),
    ensures
        spec_pkg_name(s) + seq!['-'] + spec_pkgver(s) =~= s.take(h3_of(s)),
        s =~= spec_pkg_name(s) + seq!['-'] + spec_pkgver(s) + seq!['-'] + s.skip(
            h3_of(s) + 1,
        ),
{
    lemma_last_ix(s, '-');
    lemma_last_ix(s.take(h3_of(s)), '-');
    lemma_last_ix(s.take(h2_of(s)), '-');
    assert(s.take(h2_of(s))[h1_of(s)] == '-');
    assert(s[h1_of(s)] == '-');
    assert(s.take(h3_of(s))[h2_of(s)] == '-');
    assert(s[h3_of(s)] == '-');
}

/// Why a file name was rejected by the parser.
#[derive(Debug, PartialEq, Eq, Clone)]
pub enum PackageParseError {
    /// The name does not follow the package naming convention.
    NoPackageName,
    /// The path has no file-name component at all.
    EmptyPathOrRoot,
    /// The version-string was extracted but cannot be read as a version.
    CouldntParsePkgver(String),
}

/// Index of the last occurrence of `c`, scanning the characters of `s`
/// backward.
#[verifier::loop_isolation(false)]
pub(crate) fn last_char_ix(s: &str, c: char) -> (r: Option<usize>)
    ensures
        r is Some <==> last_ix(s@, c) >= 0,
        r is Some ==> r->0 as int == last_ix(s@, c) && (r->0 as int) < s@.len(),
{
    proof {
        lemma_last_ix(s@, c);
    }
    let n = s.unicode_len();
    let mut i: usize = n;
    while i > 0
        invariant
            i <= n,
            n == s@.len(),
            forall|j: int| i <= j < n ==> s@[j] != c,
        decreases i,
    {
        if s.get_char(i - 1) == c {
            return Some(i - 1);
        }
        i = i - 1;
    }
    None
}

/// Index of the first occurrence of `c`, scanning the characters of `s`
/// forward.
#[verifier::loop_isolation(false)]
fn first_char_ix(s: &str, c: char) -> (r: Option<usize>)
    ensures
        r is Some <==> first_ix(s@, c) >= 0,
        r is Some ==> r->0 as int == first_ix(s@, c) && (r->0 as int) < s@.len(),
{
    proof {
        lemma_first_ix(s@, c);
    }
    let n = s.unicode_len();
    let mut i: usize = 0;
    while i < n
        invariant
            i <= n,
            n == s@.len(),
            forall|j: int| 0 <= j < i ==> s@[j] != c,
        decreases n - i,
    {
        if s.get_char(i) == c {
            return Some(i);
        }
        i = i + 1;
    }
    None
}

/// Does `t` read exactly `<arch>.pkg.tar.<algo>`, with `arch` and `algo`
/// free of dots?
#[verifier::loop_isolation(false)]
fn check_ext(t: &str) -> (r: bool)
    ensures
        r == valid_ext(t@),
{
    proof {
        lemma_first_ix(t@, '.');
    }
    let n = t.unicode_len();
    let a = match first_char_ix(t, '.') {
        Some(a) => a,
        None => {
            return false;
        },
    };
    if n - a < 9 {
        return false;
    }
    if !(t.get_char(a + 1) == 'p' && t.get_char(a + 2) == 'k' && t.get_char(a + 3) == 'g'
        && t.get_char(a + 4) == '.' && t.get_char(a + 5) == 't' && t.get_char(a + 6) == 'a'
        && t.get_char(a + 7) == 'r' && t.get_char(a + 8) == '.') {
        return false;
    }
    let mut j: usize = a + 9;
    while j < n
        invariant
            a + 9 <= j <= n,
            n == t@.len(),
            forall|k: int| a + 9 <= k < j ==> t@[k] != '.',
        decreases n - j,
    {
        if t.get_char(j) == '.' {
            return false;
        }
        j = j + 1;
    }
    true
}

/// Split a conforming file name into its package name and its verbatim
/// `<version>-<release>` version-string, working backward from the end.
/// A non-conforming name is rejected, the rejection carrying the file name.
#[verifier::loop_isolation(false)]
pub fn extract_name_version(file_name: &str) -> (r: Result<
    (String, String),
    (PackageParseError, String),
>)
    ensures
        r is Ok <==> valid_pkg_filename(file_name@),
        r is Ok ==> r->Ok_0.0@ == spec_pkg_name(file_name@) && r->Ok_0.1@ == spec_pkgver(
            file_name@,
        ),
        r is Err ==> r->Err_0.0 is NoPackageName && r->Err_0.1@ == file_name@,
{
    let n = file_name.unicode_len();
    let h3 = match last_char_ix(file_name, '-') {
        Some(h3) => h3,
        None => {
            return Err((PackageParseError::NoPackageName, file_name.to_owned()));
        },
    };
    let tail = file_name.substring_char(h3 + 1, n);
    assert(tail@ =~= file_name@.skip(h3_of(file_name@) + 1));
    if !check_ext(tail) {
        return Err((PackageParseError::NoPackageName, file_name.to_owned()));
    }
    let head3 = file_name.substring_char(0, h3);
    assert(head3@ =~= file_name@.take(h3_of(file_name@)));
    let h2 = match last_char_ix(head3, '-') {
        Some(h2) => h2,
        None => {
            return Err((PackageParseError::NoPackageName, file_name.to_owned()));
        },
    };
    if h3 - h2 < 2 {
        return Err((PackageParseError::NoPackageName, file_name.to_owned()));
    }
    let head2 = file_name.substring_char(0, h2);
    assert(head2@ =~= file_name@.take(h2_of(file_name@)));
    let h1 = match last_char_ix(head2, '-') {
        Some(h1) => h1,
        None => {
            return Err((PackageParseError::NoPackageName, file_name.to_owned()));
        },
    };
    if h2 - h1 < 2 {
        return Err((PackageParseError::NoPackageName, file_name.to_owned()));
    }
    let name = file_name.substring_char(0, h1);
    let ver = file_name.substring_char(h1 + 1, h3);
    assert(name@ =~= spec_pkg_name(file_name@));
    assert(ver@ =~= spec_pkgver(file_name@));
    Ok((name.to_owned(), ver.to_owned()))
}

/// The file-name component of a path: everything after the last `/`
/// (the whole path when it has none).
pub open spec fn spec_fname(p: Seq<char>) -> Seq<char> {
    p.skip(last_ix(p, '/') + 1)
}

/// A path produces a package entry: it has a file name, the file name
/// follows the convention, and the version-string is readable.
pub open spec fn path_parses(p: Seq<char>) -> bool {
    &&& spec_fname(p).len() > 0
    &&& valid_pkg_filename(spec_fname(p))
    &&& version_parseable(spec_pkgver(spec_fname(p)))
}

/// Spec-level image of a parsed package file.
#[verifier::ext_equal]
pub struct PkgM {
    pub path: Seq<char>,
    pub name: Seq<char>,
    pub ver: Seq<char>,
}

/// The package entry that a conforming path produces.
pub open spec fn parsed_pkg(p: Seq<char>) -> PkgM {
    PkgM {
        path: p,
        name: spec_pkg_name(spec_fname(p)),
        ver: spec_pkgver(spec_fname(p)),
    }
}

/// A package file whose name was successfully parsed.  Immutable once
/// created; only `Package::from_path` produces one, and never from a
/// malformed name.
#[derive(Debug, Clone)]
pub struct Package {
    /// The full path the file was found under.
    pub path: String,
    /// The package name encoded in the file name.
    pub name: String,
    /// The verbatim `<version>-<release>` token, kept for the comparator.
    pub pkgverstr: String,
}

impl View for Package {
    type V = PkgM;

    open spec fn view(&self) -> PkgM {
        PkgM { path: self.path@, name: self.name@, ver: self.pkgverstr@ }
    }
}

impl Package {
    /// Parse one path into a package entry, or say exactly why it is not
    /// one.  The rejection carries the path, so the caller can report the
    /// file individually.
    pub fn from_path(path: &str) -> (r: Result<Package, (PackageParseError, String)>)
        ensures
            r is Ok <==> path_parses(path@),
            r is Ok ==> r->Ok_0@ == parsed_pkg(path@),
            r is Err ==> r->Err_0.1@ == path@,
            r is Err && spec_fname(path@).len() == 0 ==> r->Err_0.0 is EmptyPathOrRoot,
            r is Err && spec_fname(path@).len() > 0 && !valid_pkg_filename(spec_fname(path@))
                ==> r->Err_0.0 is NoPackageName,
            r is Err && valid_pkg_filename(spec_fname(path@)) ==> r->Err_0.0 is CouldntParsePkgver
                && r->Err_0.0->CouldntParsePkgver_0@ == spec_pkgver(spec_fname(path@)),
    {
        proof {
            lemma_last_ix(path@, '/');
        }
        let n = path.unicode_len();
        let start = match last_char_ix(path, '/') {
            Some(i) => i + 1,
            None => 0,
        };
        let fname = path.substring_char(start, n);
        assert(fname@ =~= spec_fname(path@));
        if fname.unicode_len() == 0 {
            return Err((PackageParseError::EmptyPathOrRoot, path.to_owned()));
        }
        match extract_name_version(fname) {
            Err((e, _)) => Err((e, path.to_owned())),
            Ok((name, ver)) => {
                if vc_parseable(ver.as_str()) {
                    Ok(Package { path: path.to_owned(), name, pkgverstr: ver })
                } else {
                    Err((PackageParseError::CouldntParsePkgver(ver), path.to_owned()))
                }
            },
        }
    }

    /// Three-way-compare two package files by their version-strings, under
    /// the conservative policy: what the backend cannot strictly order is
    /// reported as `Equal`.  The result is antisymmetric, and comparing a
    /// version-string with itself always yields `Equal`.
    pub fn compare_versions(a: &Package, b: &Package) -> (r: ComparisonResult)
        ensures
            r == cmp_of(a.pkgverstr@, b.pkgverstr@),
            r is Greater ==> cmp_of(b.pkgverstr@, a.pkgverstr@) is Less,
            r is Less ==> cmp_of(b.pkgverstr@, a.pkgverstr@) is Greater,
            r is Equal ==> cmp_of(b.pkgverstr@, a.pkgverstr@) is Equal,
            a.pkgverstr@ == b.pkgverstr@ && version_parseable(a.pkgverstr@) ==> r is Equal,
    {
        match vc_compare(a.pkgverstr.as_str(), b.pkgverstr.as_str()) {
            Some(RawCmp::Gt) | Some(RawCmp::Ge) => ComparisonResult::Greater,
            Some(RawCmp::Lt) | Some(RawCmp::Le) => ComparisonResult::Less,
            _ => ComparisonResult::Equal,
        }
    }
}

/// Spec-level image of a package group: the current best candidate and the
/// files whose versions were ambiguous against it.
#[verifier::ext_equal]
pub struct GroupM {
    pub best: PkgM,
    pub ambs: Seq<PkgM>,
}

/// A package and its ambiguities, the first having priority over the rest.
/// Of the rest, no entry could be strictly ordered against the best at the
/// time it was folded in.
#[derive(Debug, Clone)]
pub struct Packages(pub Package, pub Vec<Package>);

impl View for Packages {
    type V = GroupM;

    open spec fn view(&self) -> GroupM {
        GroupM { best: self.0@, ambs: self.1@.map_values(|p: Package| p@) }
    }
}

impl Packages {
    /// A fresh group holding one file and no ambiguities.
    pub fn new(p: Package) -> (r: Self)
        ensures
            r@.best == p@,
            r@.ambs =~= Seq::<PkgM>::empty(),
    {
        Packages(p, Vec::new())
    }

    /// The package name this group is keyed by.
    pub fn get_name(&self) -> (r: &str)
        ensures
            r@ == self@.best.name,
    {
        self.0.name.as_str()
    }

    /// Whether any ambiguities were recorded against the best candidate.
    pub fn has_ambs(&self) -> (r: bool)
        ensures
            r == (self@.ambs.len() > 0),
    {
        self.1.len() > 0
    }

    /// Record a file whose version could not be strictly ordered against
    /// the best candidate.
    pub fn add_ambiguity(&mut self, p: Package)
        ensures
            final(self)@.best == old(self)@.best,
            final(self)@.ambs =~= old(self)@.ambs.push(p@),
    {
        self.1.push(p);
    }

    /// The current package and its ambiguities, the best candidate first.
    pub fn into_iter(self) -> (r: Vec<Package>)
        ensures
            r@.map_values(|p: Package| p@) =~= seq![self@.best] + self@.ambs,
    {
        let Packages(p, mut rest) = self;
        rest.insert(0, p);
        rest
    }
}

} // verus!
