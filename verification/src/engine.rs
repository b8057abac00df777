use vstd::prelude::*;

use crate::package::spec_fname;
use crate::package::path_parses;
use crate::package::parsed_pkg;
use crate::package::GroupM;
use crate::package::Package;
use crate::package::Packages;
use crate::package::PkgM;
use crate::vercmp::cmp_of;
use crate::vercmp::ComparisonResult;

verus! {

// ---------------------------------------------------------------------------
// The resolution engine: a single pass over the parsed package files,
// folding each into a per-name group, classifying files as kept (the
// group's best), ambiguous, or superseded.
// ---------------------------------------------------------------------------

/// The views of a list of path strings.
pub open spec fn paths_view(ps: Seq<String>) -> Seq<Seq<char>> {
    ps.map_values(|s: String| s@)
}

/// The views of a list of parsed packages.
pub open spec fn pkgs_view(ps: Seq<Package>) -> Seq<PkgM> {
    ps.map_values(|p: Package| p@)
}

/// The views of a list of groups.
pub open spec fn groups_view(gs: Seq<Packages>) -> Seq<GroupM> {
    gs.map_values(|g: Packages| g@)
}

/// All files a group holds: the best candidate first, then the ambiguities.
pub open spec fn group_members(g: GroupM) -> Seq<PkgM> {
    seq![g.best] + g.ambs
}

/// The paths of all files a group holds.
pub open spec fn group_paths(g: GroupM) -> Seq<Seq<char>> {
    group_members(g).map_values(|m: PkgM| m.path)
}

/// Index of the first group keyed by `name`, or -1 if there is none.
pub open spec fn find_ix(gs: Seq<GroupM>, name: Seq<char>) -> int
    decreases gs.len(),
{
    if gs.len() == 0 {
        -1
    } else if gs[0].best.name == name {
        0
    } else {
        let r = find_ix(gs.skip(1), name);
        if r < 0 {
            -1
        } else {
            r + 1
        }
    }
}

pub proof fn lemma_find_ix(gs: Seq<GroupM>, name: Seq<char>)
    ensures
        -1 <= find_ix(gs, name) < gs.len(),
        find_ix(gs, name) >= 0 ==> gs[find_ix(gs, name)].best.name == name,
        forall|j: int| 0 <= j < find_ix(gs, name) ==> gs[j].best.name != name,
        find_ix(gs, name) == -1 ==> forall|j: int|
            0 <= j < gs.len() ==> gs[j].best.name != name,
    decreases gs.len(),
{
    if gs.len() > 0 && gs[0].best.name != name {
        lemma_find_ix(gs.skip(1), name);
        let r = find_ix(gs.skip(1), name);
        if r >= 0 {
            assert(gs[r + 1] == gs.skip(1)[r]);
            assert forall|j: int| 0 <= j < find_ix(gs, name) implies gs[j].best.name != name by {
                if j > 0 {
                    assert(gs[j] == gs.skip(1)[j - 1]);
                }
            }
        } else {
            assert forall|j: int| 0 <= j < gs.len() implies gs[j].best.name != name by {
                if j > 0 {
                    assert(gs[j] == gs.skip(1)[j - 1]);
                }
            }
        }
    }
}

/// One fold step of the resolution engine over one parsed file, exactly as
/// the pass describes it: a new name opens a group; a duplicate path is a
/// no-op; a strictly newer file takes over as best and the old members are
/// re-classified against it; a strictly older file is superseded at once;
/// a tie joins the ambiguities.
pub open spec fn engine_step(gs: Seq<GroupM>, sup: Seq<Seq<char>>, p: PkgM) -> (Seq<GroupM>, Seq<
    Seq<char>,
>) {
    let i = find_ix(gs, p.name);
    if i < 0 {
        (gs.push(GroupM { best: p, ambs: Seq::empty() }), sup)
    } else {
        let g = gs[i];
        if group_paths(g).contains(p.path) {
            (gs, sup)
        } else {
            match cmp_of(p.ver, g.best.ver) {
                ComparisonResult::Greater => (
                    gs.update(
                        i,
                        GroupM {
                            best: p,
                            ambs: group_members(g).filter(
                                |m: PkgM| cmp_of(m.ver, p.ver) != ComparisonResult::Less,
                            ),
                        },
                    ),
                    sup + group_members(g).filter(
                        |m: PkgM| cmp_of(m.ver, p.ver) == ComparisonResult::Less,
                    ).map_values(|m: PkgM| m.path),
                ),
                ComparisonResult::Less => (gs, sup.push(p.path)),
                ComparisonResult::Equal => (
                    gs.update(i, GroupM { best: g.best, ambs: g.ambs.push(p) }),
                    sup,
                ),
            }
        }
    }
}

/// Index of the first group keyed by `name`, scanning forward.
#[verifier::loop_isolation(false)]
fn find_group(groups: &Vec<Packages>, name: &String) -> (r: Option<usize>)
    ensures
        r is Some <==> find_ix(groups_view(groups@), name@) >= 0,
        r is Some ==> r->0 as int == find_ix(groups_view(groups@), name@) && (r->0 as int)
            < groups@.len(),
{
    proof {
        lemma_find_ix(groups_view(groups@), name@);
    }
    let n = groups.len();
    let mut i: usize = 0;
    while i < n
        invariant
            i <= n,
            n == groups@.len(),
            forall|j: int| 0 <= j < i ==> groups_view(groups@)[j].best.name != name@,
        decreases n - i,
    {
        if groups[i].0.name == *name {
            assert(groups_view(groups@)[i as int].best.name == name@);
            return Some(i);
        }
        i = i + 1;
    }
    None
}

/// Whether the group already holds a file under this exact path.
#[verifier::loop_isolation(false)]
fn group_contains_path(g: &Packages, path: &String) -> (r: bool)
    ensures
        r == group_paths(g@).contains(path@),
{
    if g.0.path == *path {
        assert(group_members(g@)[0] == g@.best);
        assert(group_paths(g@)[0] == path@);
        return true;
    }
    let n = g.1.len();
    let mut k: usize = 0;
    while k < n
        invariant
            k <= n,
            n == g.1@.len(),
            forall|j: int| 0 <= j < k ==> g.1@[j]@.path != path@,
        decreases n - k,
    {
        if g.1[k].path == *path {
            assert(group_members(g@)[k + 1] == g@.ambs[k as int]);
            assert(group_paths(g@)[k + 1] == path@);
            return true;
        }
        k = k + 1;
    }
    assert forall|j: int| 0 <= j < group_paths(g@).len() implies group_paths(g@)[j] != path@ by {
        if j == 0 {
            assert(group_members(g@)[0] == g@.best);
        } else {
            assert(group_members(g@)[j] == g@.ambs[j - 1]);
        }
    }
    false
}

/// `(s.push(x)).filter(pred)` appends `x` exactly when `pred` accepts it.
pub(crate) proof fn lemma_filter_push<A>(s: Seq<A>, pred: spec_fn(A) -> bool, x: A)
    ensures
        (s.push(x)).filter(pred) == if pred(x) {
            s.filter(pred).push(x)
        } else {
            s.filter(pred)
        },
{
    reveal(Seq::filter);
    assert((s.push(x)).drop_last() =~= s);
    assert((s.push(x)).last() == x);
    if pred(x) {
        assert((s.push(x)).filter(pred) =~= s.filter(pred).push(x));
    } else {
        assert((s.push(x)).filter(pred) =~= s.filter(pred));
    }
}

/// Fold one parsed file into the per-name groups, as `engine_step` says.
#[verifier::loop_isolation(false)]
pub fn add_package(groups: &mut Vec<Packages>, superseded: &mut Vec<String>, pkg: Package)
    ensures
        groups_view(final(groups)@) == engine_step(
            groups_view(old(groups)@),
            paths_view(old(superseded)@),
            pkg@,
        ).0,
        paths_view(final(superseded)@) == engine_step(
            groups_view(old(groups)@),
            paths_view(old(superseded)@),
            pkg@,
        ).1,
{
    let ghost gs0 = groups_view(old(groups)@);
    let ghost sup0 = paths_view(old(superseded)@);
    match find_group(groups, &pkg.name) {
        None => {
            groups.push(Packages::new(pkg));
            assert(groups_view(groups@) =~= gs0.push(
                GroupM { best: pkg@, ambs: Seq::empty() },
            ));
            assert(paths_view(superseded@) =~= sup0);
        },
        Some(i) => {
            let ghost g = gs0[i as int];
            if group_contains_path(&groups[i], &pkg.path) {
                assert(groups_view(groups@) =~= gs0);
                assert(paths_view(superseded@) =~= sup0);
            } else {
                let c = Package::compare_versions(&pkg, &groups[i].0);
                match c {
                    ComparisonResult::Greater => {
                        let old_g = groups.remove(i);
                        let mut rest = old_g.into_iter();
                        let ghost ms = group_members(g);
                        assert(pkgs_view(rest@) =~= ms);
                        let ghost keep_pred = |m: PkgM|
                            cmp_of(m.ver, pkg@.ver) != ComparisonResult::Less;
                        let ghost drop_pred = |m: PkgM|
                            cmp_of(m.ver, pkg@.ver) == ComparisonResult::Less;
                        let mut newambs: Vec<Package> = Vec::new();
                        proof {
                            assert(ms.take(0) =~= Seq::<PkgM>::empty());
                            reveal(Seq::filter);
                        }
                        let ghost total = ms.len();
                        while rest.len() > 0
                            invariant
                                pkgs_view(rest@) =~= ms.skip(total - rest@.len()),
                                rest@.len() <= total,
                                pkgs_view(newambs@) == ms.take(total - rest@.len()).filter(
                                    keep_pred,
                                ),
                                paths_view(superseded@) == sup0 + ms.take(
                                    total - rest@.len(),
                                ).filter(drop_pred).map_values(|m: PkgM| m.path),
                            decreases rest@.len(),
                        {
                            let ghost done = total - rest@.len();
                            let ghost restv = rest@;
                            let m = rest.remove(0);
                            proof {
                                assert(pkgs_view(restv)[0] == restv[0]@);
                                assert(ms.skip(done)[0] == ms[done]);
                                assert(m@ == ms[done]);
                                assert(rest@ =~= restv.skip(1));
                                assert forall|k: int| 0 <= k < rest@.len() implies pkgs_view(
                                    rest@,
                                )[k] == ms.skip(done + 1)[k] by {
                                    assert(pkgs_view(rest@)[k] == rest@[k]@);
                                    assert(rest@[k] == restv[k + 1]);
                                    assert(pkgs_view(restv)[k + 1] == restv[k + 1]@);
                                    assert(pkgs_view(restv)[k + 1] == ms.skip(done)[k + 1]);
                                    assert(ms.skip(done)[k + 1] == ms[done + 1 + k]);
                                }
                                assert(pkgs_view(rest@) =~= ms.skip(done + 1));
                                assert(ms.take(done + 1) =~= ms.take(done).push(ms[done]));
                                lemma_filter_push(ms.take(done), keep_pred, ms[done]);
                                lemma_filter_push(ms.take(done), drop_pred, ms[done]);
                            }
                            let mc = Package::compare_versions(&m, &pkg);
                            match mc {
                                ComparisonResult::Less => {
                                    let ghost supv = superseded@;
                                    superseded.push(m.path);
                                    proof {
                                        assert(drop_pred(ms[done]));
                                        assert(paths_view(superseded@) =~= paths_view(
                                            supv,
                                        ).push(m.path@));
                                        assert(ms.take(done + 1).filter(drop_pred).map_values(
                                            |mm: PkgM| mm.path,
                                        ) =~= ms.take(done).filter(drop_pred).map_values(
                                            |mm: PkgM| mm.path,
                                        ).push(m@.path));
                                        assert(paths_view(superseded@) =~= sup0 + ms.take(
                                            done + 1,
                                        ).filter(drop_pred).map_values(|mm: PkgM| mm.path));
                                    }
                                },
                                _ => {
                                    newambs.push(m);
                                    assert(pkgs_view(newambs@) =~= ms.take(done + 1).filter(
                                        keep_pred,
                                    ));
                                },
                            }
                        }
                        proof {
                            assert(ms.take(total as int) =~= ms);
                        }
                        groups.insert(i, Packages(pkg, newambs));
                        assert(groups_view(groups@) =~= gs0.update(
                            i as int,
                            GroupM { best: pkg@, ambs: ms.filter(keep_pred) },
                        ));
                    },
                    ComparisonResult::Less => {
                        superseded.push(pkg.path);
                        assert(groups_view(groups@) =~= gs0);
                        assert(paths_view(superseded@) =~= sup0.push(pkg@.path));
                    },
                    ComparisonResult::Equal => {
                        let mut old_g = groups.remove(i);
                        old_g.add_ambiguity(pkg);
                        groups.insert(i, old_g);
                        assert(groups_view(groups@) =~= gs0.update(
                            i as int,
                            GroupM { best: g.best, ambs: g.ambs.push(pkg@) },
                        ));
                        assert(paths_view(superseded@) =~= sup0);
                    },
                }
            }
        },
    }
}


// ---------------------------------------------------------------------------
// The scan pass: signature files are set aside, conforming names are folded
// into the engine, everything else is ignored and reported.
// ---------------------------------------------------------------------------

/// A path names a detached signature file: its file name carries the `sig`
/// extension.
pub open spec fn is_sig_name(p: Seq<char>) -> bool {
    let f = spec_fname(p);
    &&& f.len() >= 5
    &&& f[f.len() - 4] == '.'
    &&& f[f.len() - 3] == 's'
    &&& f[f.len() - 2] == 'i'
    &&& f[f.len() - 1] == 'g'
}

/// Spec-level image of the state of one scan over a directory's paths.
#[verifier::ext_equal]
pub struct ScanM {
    pub groups: Seq<GroupM>,
    pub superseded: Seq<Seq<char>>,
    pub ignored: Seq<Seq<char>>,
    pub sigs: Seq<Seq<char>>,
}

/// The state a scan starts from: nothing seen yet.
pub open spec fn scan_init() -> ScanM {
    ScanM {
        groups: Seq::empty(),
        superseded: Seq::empty(),
        ignored: Seq::empty(),
        sigs: Seq::empty(),
    }
}

/// One scan step over one path: an already-ignored path is skipped, a
/// signature file is set aside for the linker, a conforming package file is
/// folded into the engine, and anything else is ignored.
pub open spec fn scan_step(st: ScanM, p: Seq<char>) -> ScanM {
    if st.ignored.contains(p) {
        st
    } else if is_sig_name(p) {
        ScanM { sigs: st.sigs.push(p), ..st }
    } else if path_parses(p) {
        let gsup = engine_step(st.groups, st.superseded, parsed_pkg(p));
        ScanM { groups: gsup.0, superseded: gsup.1, ..st }
    } else {
        ScanM { ignored: st.ignored.push(p), ..st }
    }
}

/// The scan pass over a list of paths, in order.
pub open spec fn scan_fold(st: ScanM, paths: Seq<Seq<char>>) -> ScanM
    decreases paths.len(),
{
    if paths.len() == 0 {
        st
    } else {
        scan_fold(scan_step(st, paths[0]), paths.skip(1))
    }
}

/// What one scan over a directory's paths produced: the per-name groups,
/// the paths already known superseded, the paths ignored, and the signature
/// files set aside for the linker.
pub struct Resolution {
    pub groups: Vec<Packages>,
    pub superseded: Vec<String>,
    pub ignored: Vec<String>,
    pub sig_files: Vec<String>,
}

impl View for Resolution {
    type V = ScanM;

    open spec fn view(&self) -> ScanM {
        ScanM {
            groups: groups_view(self.groups@),
            superseded: paths_view(self.superseded@),
            ignored: paths_view(self.ignored@),
            sigs: paths_view(self.sig_files@),
        }
    }
}

/// Whether `v` already holds a path equal to `p`.
#[verifier::loop_isolation(false)]
fn contains_path(v: &Vec<String>, p: &String) -> (r: bool)
    ensures
        r == paths_view(v@).contains(p@),
{
    let n = v.len();
    let mut i: usize = 0;
    while i < n
        invariant
            i <= n,
            n == v@.len(),
            forall|j: int| 0 <= j < i ==> v@[j]@ != p@,
        decreases n - i,
    {
        if v[i] == *p {
            assert(paths_view(v@)[i as int] == p@);
            return true;
        }
        i = i + 1;
    }
    assert forall|k: int| 0 <= k < paths_view(v@).len() implies paths_view(v@)[k] != p@ by {
        assert(paths_view(v@)[k] == v@[k]@);
    }
    false
}

/// Whether the path names a detached signature file.
#[verifier::loop_isolation(false)]
pub fn is_sig_file(path: &str) -> (r: bool)
    ensures
        r == is_sig_name(path@),
{
    proof {
        crate::package::lemma_last_ix(path@, '/');
    }
    let n = path.unicode_len();
    let start = match crate::package::last_char_ix(path, '/') {
        Some(i) => i + 1,
        None => 0,
    };
    let fname = path.substring_char(start, n);
    assert(fname@ =~= spec_fname(path@));
    let m = fname.unicode_len();
    if m < 5 {
        return false;
    }
    fname.get_char(m - 4) == '.' && fname.get_char(m - 3) == 's' && fname.get_char(m - 2) == 'i'
        && fname.get_char(m - 1) == 'g'
}

/// One pass over the paths of a directory: signature files are set aside,
/// conforming package files are folded into per-name groups (strictly older
/// versions landing in `superseded` at once), and every other file is
/// ignored.  Exactly `scan_fold` from the empty state.
#[verifier::loop_isolation(false)]
pub fn classify_files(paths: &Vec<String>) -> (r: Resolution)
    ensures
        r@ == scan_fold(scan_init(), paths_view(paths@)),
{
    let ghost pv = paths_view(paths@);
    let mut r = Resolution {
        groups: Vec::new(),
        superseded: Vec::new(),
        ignored: Vec::new(),
        sig_files: Vec::new(),
    };
    assert(r@ =~~= scan_init());
    proof {
        assert(pv.skip(0) =~= pv);
    }
    let n = paths.len();
    let mut i: usize = 0;
    while i < n
        invariant
            i <= n,
            n == paths@.len(),
            scan_fold(r@, pv.skip(i as int)) == scan_fold(scan_init(), pv),
        decreases n - i,
    {
        let ghost st0 = r@;
        let p = &paths[i];
        assert(p@ == pv[i as int]);
        if contains_path(&r.ignored, p) {
            assert(r@ =~~= scan_step(st0, pv[i as int]));
        } else if is_sig_file(p.as_str()) {
            r.sig_files.push(p.clone());
            assert(paths_view(r.sig_files@) =~= st0.sigs.push(pv[i as int]));
            assert(r@ =~~= scan_step(st0, pv[i as int]));
        } else {
            match Package::from_path(p.as_str()) {
                Ok(pkg) => {
                    assert(pkg@ == parsed_pkg(pv[i as int]));
                    add_package(&mut r.groups, &mut r.superseded, pkg);
                    assert(r@ =~~= scan_step(st0, pv[i as int]));
                },
                Err(_) => {
                    r.ignored.push(p.clone());
                    assert(paths_view(r.ignored@) =~= st0.ignored.push(pv[i as int]));
                    assert(r@ =~~= scan_step(st0, pv[i as int]));
                },
            }
        }
        proof {
            assert(pv.skip(i as int).skip(1) =~= pv.skip(i + 1));
            assert(pv.skip(i as int)[0] == pv[i as int]);
            assert(scan_fold(st0, pv.skip(i as int)) == scan_fold(r@, pv.skip(i + 1)));
        }
        i = i + 1;
    }
    proof {
        assert(pv.skip(n as int) =~= Seq::<Seq<char>>::empty());
    }
    r
}


// ---------------------------------------------------------------------------
// Ambiguity resolution: candidates are presented sorted by version-string
// descending -- a plain string-level presentation ordering, distinct from
// the logical comparator, used only for display and index selection.
// ---------------------------------------------------------------------------

/// Plain lexicographic order on character sequences, by code point: the
/// presentation order of candidates.
pub open spec fn spec_str_lt(a: Seq<char>, b: Seq<char>) -> bool
    decreases a.len(),
{
    if b.len() == 0 {
        false
    } else if a.len() == 0 {
        true
    } else if a[0] == b[0] {
        spec_str_lt(a.skip(1), b.skip(1))
    } else {
        (a[0] as int) < (b[0] as int)
    }
}

/// Lexicographic string comparison, scanning the common prefix.
#[verifier::loop_isolation(false)]
fn str_lt(a: &str, b: &str) -> (r: bool)
    ensures
        r == spec_str_lt(a@, b@),
{
    let na = a.unicode_len();
    let nb = b.unicode_len();
    proof {
        assert(a@.skip(0) =~= a@);
        assert(b@.skip(0) =~= b@);
    }
    let mut i: usize = 0;
    while i < na && i < nb
        invariant
            i <= na,
            i <= nb,
            na == a@.len(),
            nb == b@.len(),
            spec_str_lt(a@, b@) == spec_str_lt(a@.skip(i as int), b@.skip(i as int)),
        decreases na - i,
    {
        let ca = a.get_char(i);
        let cb = b.get_char(i);
        proof {
            assert(a@.skip(i as int)[0] == a@[i as int]);
            assert(b@.skip(i as int)[0] == b@[i as int]);
        }
        if ca != cb {
            return (ca as u32) < (cb as u32);
        }
        proof {
            assert(a@.skip(i as int).skip(1) =~= a@.skip(i + 1));
            assert(b@.skip(i as int).skip(1) =~= b@.skip(i + 1));
        }
        i = i + 1;
    }
    i < nb
}

/// Stable descending insertion of one entry: it passes over every entry
/// whose version-string is strictly smaller, and stops behind the rest.
pub open spec fn insert_desc(s: Seq<PkgM>, x: PkgM) -> Seq<PkgM>
    decreases s.len(),
{
    if s.len() > 0 && spec_str_lt(s.last().ver, x.ver) {
        insert_desc(s.drop_last(), x).push(s.last())
    } else {
        s.push(x)
    }
}

/// Stable sort of the candidates by version-string, descending.
pub open spec fn sort_desc(s: Seq<PkgM>) -> Seq<PkgM>
    decreases s.len(),
{
    if s.len() == 0 {
        Seq::empty()
    } else {
        insert_desc(sort_desc(s.drop_last()), s.last())
    }
}

/// Where `insert_desc` puts the new entry: at the first index from the
/// right whose entry is not strictly smaller.
proof fn lemma_insert_desc_at(s: Seq<PkgM>, x: PkgM, j: int)
    requires
        0 <= j <= s.len(),
        forall|k: int| j <= k < s.len() ==> spec_str_lt(#[trigger] s[k].ver, x.ver),
        j > 0 ==> !spec_str_lt(s[j - 1].ver, x.ver),
    ensures
        insert_desc(s, x) =~= s.take(j) + seq![x] + s.skip(j),
    decreases s.len(),
{
    if j == s.len() {
        if s.len() > 0 {
            assert(!spec_str_lt(s.last().ver, x.ver));
        }
        assert(insert_desc(s, x) =~= s.take(j) + seq![x] + s.skip(j));
    } else {
        assert(spec_str_lt(s.last().ver, x.ver));
        lemma_insert_desc_at(s.drop_last(), x, j);
        assert(insert_desc(s, x) =~= s.take(j) + seq![x] + s.skip(j));
    }
}

/// Inserting preserves the candidates as a multiset.
proof fn lemma_insert_desc_multiset(s: Seq<PkgM>, x: PkgM)
    ensures
        insert_desc(s, x).to_multiset() =~= s.to_multiset().insert(x),
    decreases s.len(),
{
    broadcast use vstd::seq_lib::group_to_multiset_ensures;

    if s.len() > 0 && spec_str_lt(s.last().ver, x.ver) {
        lemma_insert_desc_multiset(s.drop_last(), x);
        assert(s.drop_last().push(s.last()) =~= s);
        assert(insert_desc(s, x).to_multiset() =~= insert_desc(s.drop_last(), x).to_multiset()
            .insert(s.last()));
        assert(s.to_multiset() =~= s.drop_last().to_multiset().insert(s.last()));
    }
}

/// Sorting preserves the candidates as a multiset: no file is lost and
/// none is duplicated by presentation.
pub proof fn lemma_sort_desc_multiset(s: Seq<PkgM>)
    ensures
        sort_desc(s).to_multiset() =~= s.to_multiset(),
    decreases s.len(),
{
    broadcast use vstd::seq_lib::group_to_multiset_ensures;

    if s.len() > 0 {
        lemma_sort_desc_multiset(s.drop_last());
        lemma_insert_desc_multiset(sort_desc(s.drop_last()), s.last());
        assert(s.drop_last().push(s.last()) =~= s);
        assert(s.to_multiset() =~= s.drop_last().to_multiset().insert(s.last()));
    }
}

/// The views of the tail of a list of packages, when the whole list views
/// to a known suffix.
proof fn lemma_pkgs_view_step(restv: Seq<Package>, ms: Seq<PkgM>, done: int)
    requires
        0 <= done,
        pkgs_view(restv) == ms.skip(done),
        ms.len() == done + restv.len(),
        restv.len() > 0,
    ensures
        restv[0]@ == ms[done],
        pkgs_view(restv.skip(1)) =~= ms.skip(done + 1),
{
    assert(pkgs_view(restv)[0] == restv[0]@);
    assert(ms.skip(done)[0] == ms[done]);
    assert forall|k: int| 0 <= k < restv.len() - 1 implies pkgs_view(restv.skip(1))[k] == ms.skip(
        done + 1,
    )[k] by {
        assert(pkgs_view(restv.skip(1))[k] == restv.skip(1)[k]@);
        assert(restv.skip(1)[k] == restv[k + 1]);
        assert(pkgs_view(restv)[k + 1] == restv[k + 1]@);
        assert(ms.skip(done)[k + 1] == ms[done + 1 + k]);
        assert(ms.skip(done + 1)[k] == ms[done + 1 + k]);
    }
}

/// The candidate list of one group: the best candidate and the ambiguities,
/// sorted by version-string descending for presentation, stably.
#[verifier::loop_isolation(false)]
pub fn sorted_candidates(g: Packages) -> (r: Vec<Package>)
    ensures
        pkgs_view(r@) == sort_desc(group_members(g@)),
        pkgs_view(r@).to_multiset() == group_members(g@).to_multiset(),
        r@.len() == group_members(g@).len(),
{
    let ghost ms = group_members(g@);
    proof {
        lemma_sort_desc_multiset(ms);
        broadcast use vstd::seq_lib::group_to_multiset_ensures;

    }
    let mut rest = g.into_iter();
    assert(pkgs_view(rest@) =~= ms);
    let mut out: Vec<Package> = Vec::new();
    let ghost total = ms.len() as int;
    proof {
        assert(ms.take(0) =~= Seq::<PkgM>::empty());
    }
    while rest.len() > 0
        invariant
            pkgs_view(rest@) == ms.skip(total - rest@.len()),
            rest@.len() <= total,
            pkgs_view(out@) == sort_desc(ms.take(total - rest@.len())),
        decreases rest@.len(),
    {
        let ghost done = total - rest@.len();
        let ghost restv = rest@;
        let m = rest.remove(0);
        proof {
            lemma_pkgs_view_step(restv, ms, done);
            assert(m@ == ms[done]);
            assert(rest@ =~= restv.skip(1));
            assert(pkgs_view(rest@) =~= ms.skip(done + 1));
        }
        let mut j: usize = out.len();
        while j > 0 && str_lt(out[j - 1].pkgverstr.as_str(), m.pkgverstr.as_str())
            invariant
                j <= out@.len(),
                forall|k: int|
                    j <= k < out@.len() ==> spec_str_lt(
                        #[trigger] pkgs_view(out@)[k].ver,
                        m@.ver,
                    ),
            decreases j,
        {
            proof {
                assert(pkgs_view(out@)[j - 1].ver == out@[j - 1].pkgverstr@);
            }
            j = j - 1;
        }
        let ghost outv = pkgs_view(out@);
        let ghost outs = out@;
        proof {
            if j > 0 {
                assert(outv[j - 1].ver == outs[j - 1].pkgverstr@);
            }
            lemma_insert_desc_at(outv, m@, j as int);
        }
        out.insert(j, m);
        proof {
            outs.insert_ensures(j as int, m);
            assert forall|k: int| 0 <= k < out@.len() implies pkgs_view(out@)[k] == (outv.take(
                j as int,
            ) + seq![m@] + outv.skip(j as int))[k] by {
                assert(pkgs_view(out@)[k] == out@[k]@);
                if k < j {
                    assert(out@[k] == outs[k]);
                    assert(pkgs_view(outs)[k] == outs[k]@);
                } else if k == j {
                    assert(out@[k] == m);
                } else {
                    assert(out@[k] == outs[k - 1]);
                    assert(pkgs_view(outs)[k - 1] == outs[k - 1]@);
                }
            }
            assert(pkgs_view(out@) =~= outv.take(j as int) + seq![m@] + outv.skip(j as int));
            assert(pkgs_view(out@) =~= insert_desc(outv, m@));
            assert(ms.take(done + 1) =~= ms.take(done).push(ms[done]));
            assert(ms.take(done + 1).drop_last() =~= ms.take(done));
            assert(sort_desc(ms.take(done + 1)) == insert_desc(sort_desc(ms.take(done)), ms[done]));
        }
    }
    proof {
        broadcast use vstd::seq_lib::group_to_multiset_ensures;

        assert(ms.take(total) =~= ms);
        assert(pkgs_view(out@) == sort_desc(ms));
        assert(sort_desc(ms).to_multiset() =~= ms.to_multiset());
        assert(sort_desc(ms).to_multiset().len() == ms.to_multiset().len());
        assert(sort_desc(ms).len() == sort_desc(ms).to_multiset().len());
        assert(ms.len() == ms.to_multiset().len());
        assert(out@.len() == pkgs_view(out@).len());
    }
    out
}


// ---------------------------------------------------------------------------
// Turning groups into a final outcome: groups without ambiguities yield
// their best immediately; an ambiguity group is resolved by policy
// (keep-all below the ambiguity confirmation tier) or by one decision.
// ---------------------------------------------------------------------------

/// One resolution decision for one ambiguity group.
#[derive(Copy, Clone, Debug, PartialEq, Eq, Structural)]
pub enum AmbiguityDecision {
    /// Keep the candidate at this index of the sorted candidate list and
    /// supersede every other candidate of the group.
    Keep(usize),
    /// Leave every candidate of the group alone, but report each as
    /// ignored; nothing of the group is deleted.
    IgnoreAll,
    /// The input could not be understood: ask again, changing nothing.
    Reprompt,
}

/// The paths of a list of parsed files.
pub open spec fn cand_paths(s: Seq<PkgM>) -> Seq<Seq<char>> {
    s.map_values(|m: PkgM| m.path)
}

/// Spec-level image of a final outcome: the kept files, the superseded
/// paths (to be deleted), and the ignored paths (reported, never deleted).
#[verifier::ext_equal]
pub struct OutcomeM {
    pub kept: Seq<PkgM>,
    pub superseded: Seq<Seq<char>>,
    pub ignored: Seq<Seq<char>>,
}

/// The final, immutable outcome of one run: `superseded` and `ignored` are
/// disjoint from each other and from the kept files.
pub struct ResolutionOutcome {
    pub kept: Vec<Package>,
    pub superseded: Vec<String>,
    pub ignored: Vec<String>,
}

impl View for ResolutionOutcome {
    type V = OutcomeM;

    open spec fn view(&self) -> OutcomeM {
        OutcomeM {
            kept: pkgs_view(self.kept@),
            superseded: paths_view(self.superseded@),
            ignored: paths_view(self.ignored@),
        }
    }
}

/// How one group settles into the outcome.  No ambiguities: its best is
/// kept.  Keep-all policy: every candidate stays kept.  A `Keep(i)`
/// decision: that candidate of the sorted list is kept and the others are
/// superseded.  An ignore-all decision: every candidate is reported
/// ignored.
pub open spec fn resolve_group_spec(
    acc: OutcomeM,
    g: GroupM,
    keep_all: bool,
    d: AmbiguityDecision,
) -> OutcomeM {
    if g.ambs.len() == 0 {
        OutcomeM { kept: acc.kept.push(g.best), ..acc }
    } else {
        let cands = sort_desc(group_members(g));
        if keep_all {
            OutcomeM { kept: acc.kept + cands, ..acc }
        } else {
            match d {
                AmbiguityDecision::Keep(i) => OutcomeM {
                    kept: acc.kept.push(cands[i as int]),
                    superseded: acc.superseded + cand_paths(cands.take(i as int)) + cand_paths(
                        cands.skip(i + 1),
                    ),
                    ignored: acc.ignored,
                },
                _ => OutcomeM { ignored: acc.ignored + cand_paths(cands), ..acc },
            }
        }
    }
}

/// The groups settle one after the other, each consuming one decision if it
/// is ambiguous and decisions are being taken.  One group's resolution
/// never affects another group's.
pub open spec fn resolve_fold(
    acc: OutcomeM,
    gs: Seq<GroupM>,
    keep_all: bool,
    ds: Seq<AmbiguityDecision>,
) -> OutcomeM
    decreases gs.len(),
{
    if gs.len() == 0 {
        acc
    } else if gs[0].ambs.len() == 0 || keep_all {
        resolve_fold(
            resolve_group_spec(acc, gs[0], keep_all, AmbiguityDecision::IgnoreAll),
            gs.skip(1),
            keep_all,
            ds,
        )
    } else {
        resolve_fold(resolve_group_spec(acc, gs[0], keep_all, ds[0]), gs.skip(1), keep_all, ds.skip(1))
    }
}

/// The decision list fits the groups: one usable decision for each
/// ambiguity group, in order, each `Keep` index within its group's
/// candidate list.
pub open spec fn choices_ok(gs: Seq<GroupM>, keep_all: bool, ds: Seq<AmbiguityDecision>) -> bool
    decreases gs.len(),
{
    if gs.len() == 0 {
        true
    } else if gs[0].ambs.len() == 0 || keep_all {
        choices_ok(gs.skip(1), keep_all, ds)
    } else {
        &&& ds.len() > 0
        &&& !(ds[0] is Reprompt)
        &&& (ds[0] is Keep ==> (ds[0]->0 as int) < gs[0].ambs.len() + 1)
        &&& choices_ok(gs.skip(1), keep_all, ds.skip(1))
    }
}


/// Mapping to views commutes with appending one package.
proof fn lemma_pkgs_view_push(v: Seq<Package>, m: Package)
    ensures
        pkgs_view(v.push(m)) =~= pkgs_view(v).push(m@),
{
    assert forall|q: int| 0 <= q < v.len() + 1 implies pkgs_view(v.push(m))[q] == pkgs_view(
        v,
    ).push(m@)[q] by {
        assert(pkgs_view(v.push(m))[q] == v.push(m)[q]@);
        if q < v.len() {
            assert(v.push(m)[q] == v[q]);
            assert(pkgs_view(v)[q] == v[q]@);
        } else {
            assert(v.push(m)[q] == m);
        }
    }
}

/// Mapping to views commutes with appending one path.
proof fn lemma_paths_view_push(v: Seq<String>, m: String)
    ensures
        paths_view(v.push(m)) =~= paths_view(v).push(m@),
{
    assert forall|q: int| 0 <= q < v.len() + 1 implies paths_view(v.push(m))[q] == paths_view(
        v,
    ).push(m@)[q] by {
        assert(paths_view(v.push(m))[q] == v.push(m)[q]@);
        if q < v.len() {
            assert(v.push(m)[q] == v[q]);
            assert(paths_view(v)[q] == v[q]@);
        } else {
            assert(v.push(m)[q] == m);
        }
    }
}

/// Taking paths commutes with appending one parsed file.
pub(crate) proof fn lemma_cand_paths_push(s: Seq<PkgM>, m: PkgM)
    ensures
        cand_paths(s.push(m)) =~= cand_paths(s).push(m.path),
{
    assert forall|q: int| 0 <= q < s.len() + 1 implies cand_paths(s.push(m))[q] == cand_paths(
        s,
    ).push(m.path)[q] by {
        assert(cand_paths(s.push(m))[q] == s.push(m)[q].path);
        if q < s.len() {
            assert(s.push(m)[q] == s[q]);
            assert(cand_paths(s)[q] == s[q].path);
        } else {
            assert(s.push(m)[q] == m);
        }
    }
}

/// Move every entry of `src` to the end of `dst`.
#[verifier::loop_isolation(false)]
fn append_pkgs(dst: &mut Vec<Package>, src: Vec<Package>)
    ensures
        pkgs_view(final(dst)@) == pkgs_view(old(dst)@) + pkgs_view(src@),
{
    let ghost sv = pkgs_view(src@);
    let ghost total = sv.len() as int;
    let mut rest = src;
    proof {
        assert(pkgs_view(rest@) =~= sv.skip(0));
        assert(sv.take(0) =~= Seq::<PkgM>::empty());
        assert(pkgs_view(dst@) =~= pkgs_view(old(dst)@) + sv.take(0));
    }
    while rest.len() > 0
        invariant
            pkgs_view(rest@) == sv.skip(total - rest@.len()),
            rest@.len() <= total,
            pkgs_view(dst@) == pkgs_view(old(dst)@) + sv.take(total - rest@.len()),
        decreases rest@.len(),
    {
        let ghost done = total - rest@.len();
        let ghost restv = rest@;
        let m = rest.remove(0);
        proof {
            lemma_pkgs_view_step(restv, sv, done);
            assert(rest@ =~= restv.skip(1));
            assert(pkgs_view(rest@) =~= sv.skip(done + 1));
        }
        let ghost dv = dst@;
        dst.push(m);
        proof {
            assert(dst@ == dv.push(m));
            lemma_pkgs_view_push(dv, m);
            assert(m@ == sv[done]);
            assert(sv.take(done + 1) =~= sv.take(done).push(sv[done]));
            assert(pkgs_view(dst@) =~= pkgs_view(old(dst)@) + sv.take(done + 1));
        }
    }
    proof {
        assert(sv.take(total) =~= sv);
    }
}

/// Move the path of every entry of `src` to the end of `dst`.
#[verifier::loop_isolation(false)]
fn append_paths_of(dst: &mut Vec<String>, src: Vec<Package>)
    ensures
        paths_view(final(dst)@) == paths_view(old(dst)@) + cand_paths(pkgs_view(src@)),
{
    let ghost sv = pkgs_view(src@);
    let ghost total = sv.len() as int;
    let mut rest = src;
    proof {
        assert(pkgs_view(rest@) =~= sv.skip(0));
        assert(paths_view(dst@) =~= paths_view(old(dst)@) + cand_paths(sv.take(0)));
    }
    while rest.len() > 0
        invariant
            pkgs_view(rest@) == sv.skip(total - rest@.len()),
            rest@.len() <= total,
            paths_view(dst@) == paths_view(old(dst)@) + cand_paths(sv.take(total - rest@.len())),
        decreases rest@.len(),
    {
        let ghost done = total - rest@.len();
        let ghost restv = rest@;
        let m = rest.remove(0);
        proof {
            lemma_pkgs_view_step(restv, sv, done);
            assert(rest@ =~= restv.skip(1));
            assert(pkgs_view(rest@) =~= sv.skip(done + 1));
        }
        let ghost dv = dst@;
        dst.push(m.path);
        proof {
            assert(dst@ == dv.push(restv[0].path));
            lemma_paths_view_push(dv, restv[0].path);
            assert(restv[0].path@ == sv[done].path);
            assert(sv.take(done + 1) =~= sv.take(done).push(sv[done]));
            lemma_cand_paths_push(sv.take(done), sv[done]);
            assert(cand_paths(sv.take(done + 1)) =~= cand_paths(sv.take(done)).push(sv[done].path));
            assert(paths_view(dst@) =~= paths_view(old(dst)@) + cand_paths(sv.take(done + 1)));
        }
    }
    proof {
        assert(sv.take(total) =~= sv);
    }
}

/// Apply one usable decision to one group's sorted candidate list: `Keep`
/// keeps exactly the chosen candidate and supersedes the rest, in order;
/// ignore-all reports every candidate ignored.  Nothing else changes.
#[verifier::loop_isolation(false)]
pub fn apply_decision(
    cands: Vec<Package>,
    d: AmbiguityDecision,
    kept: &mut Vec<Package>,
    superseded: &mut Vec<String>,
    ignored: &mut Vec<String>,
)
    requires
        !(d is Reprompt),
        d is Keep ==> (d->0 as int) < cands@.len(),
    ensures
        d is Keep ==> pkgs_view(final(kept)@) == pkgs_view(old(kept)@).push(
            pkgs_view(cands@)[d->0 as int],
        ),
        d is Keep ==> paths_view(final(superseded)@) == paths_view(old(superseded)@) + cand_paths(
            pkgs_view(cands@).take(d->0 as int),
        ) + cand_paths(pkgs_view(cands@).skip(d->0 + 1)),
        d is Keep ==> final(ignored)@ == old(ignored)@,
        d is IgnoreAll ==> final(kept)@ == old(kept)@ && final(superseded)@ == old(superseded)@
            && paths_view(final(ignored)@) == paths_view(old(ignored)@) + cand_paths(
            pkgs_view(cands@),
        ),
{
    let ghost cv = pkgs_view(cands@);
    match d {
        AmbiguityDecision::Keep(i) => {
            let ghost total = cv.len() as int;
            let mut rest = cands;
            let mut k: usize = 0;
            proof {
                assert(pkgs_view(rest@) =~= cv.skip(0));
                assert(paths_view(superseded@) =~= paths_view(old(superseded)@) + cand_paths(
                    cv.take(0),
                ));
            }
            while k < i
                invariant
                    k <= i,
                    (i as int) < total,
                    total - rest@.len() == k,
                    pkgs_view(rest@) == cv.skip(k as int),
                    kept@ == old(kept)@,
                    ignored@ == old(ignored)@,
                    paths_view(superseded@) == paths_view(old(superseded)@) + cand_paths(
                        cv.take(k as int),
                    ),
                decreases i - k,
            {
                let ghost restv = rest@;
                let m = rest.remove(0);
                proof {
                    lemma_pkgs_view_step(restv, cv, k as int);
                    assert(rest@ =~= restv.skip(1));
                    assert(pkgs_view(rest@) =~= cv.skip(k + 1));
                }
                let ghost supv = superseded@;
                superseded.push(m.path);
                proof {
                    assert(superseded@ == supv.push(restv[0].path));
                    lemma_paths_view_push(supv, restv[0].path);
                    assert(restv[0].path@ == cv[k as int].path);
                    assert(cv.take(k + 1) =~= cv.take(k as int).push(cv[k as int]));
                    lemma_cand_paths_push(cv.take(k as int), cv[k as int]);
                    assert(cand_paths(cv.take(k + 1)) =~= cand_paths(cv.take(k as int)).push(
                        cv[k as int].path,
                    ));
                    assert(paths_view(superseded@) =~= paths_view(old(superseded)@) + cand_paths(
                        cv.take(k + 1),
                    ));
                }
                k = k + 1;
            }
            let ghost restv = rest@;
            let m = rest.remove(0);
            proof {
                lemma_pkgs_view_step(restv, cv, i as int);
                assert(m@ == cv[i as int]);
                assert(rest@ =~= restv.skip(1));
                assert(pkgs_view(rest@) =~= cv.skip(i + 1));
            }
            let ghost keptv = kept@;
            kept.push(m);
            proof {
                assert(kept@ == keptv.push(restv[0]));
                lemma_pkgs_view_push(keptv, restv[0]);
                assert(pkgs_view(kept@) =~= pkgs_view(old(kept)@).push(cv[i as int]));
            }
            append_paths_of(superseded, rest);
            proof {
                assert(paths_view(superseded@) =~= paths_view(old(superseded)@) + cand_paths(
                    cv.take(i as int),
                ) + cand_paths(cv.skip(i + 1)));
            }
        },
        AmbiguityDecision::IgnoreAll => {
            append_paths_of(ignored, cands);
        },
        AmbiguityDecision::Reprompt => {
        },
    }
}


/// The views of the tail of a list of strings, when the whole list views
/// to a known suffix.
proof fn lemma_paths_view_step(restv: Seq<String>, sv: Seq<Seq<char>>, done: int)
    requires
        0 <= done,
        paths_view(restv) == sv.skip(done),
        sv.len() == done + restv.len(),
        restv.len() > 0,
    ensures
        restv[0]@ == sv[done],
        paths_view(restv.skip(1)) =~= sv.skip(done + 1),
{
    assert(paths_view(restv)[0] == restv[0]@);
    assert(sv.skip(done)[0] == sv[done]);
    assert forall|k: int| 0 <= k < restv.len() - 1 implies paths_view(restv.skip(1))[k] == sv.skip(
        done + 1,
    )[k] by {
        assert(paths_view(restv.skip(1))[k] == restv.skip(1)[k]@);
        assert(restv.skip(1)[k] == restv[k + 1]);
        assert(paths_view(restv)[k + 1] == restv[k + 1]@);
        assert(sv.skip(done)[k + 1] == sv[done + 1 + k]);
        assert(sv.skip(done + 1)[k] == sv[done + 1 + k]);
    }
}

/// The views of the tail of a list of groups, when the first is removed.
proof fn lemma_groups_view_skip1(gsv: Seq<Packages>)
    requires
        gsv.len() > 0,
    ensures
        groups_view(gsv)[0] == gsv[0]@,
        groups_view(gsv.skip(1)) =~= groups_view(gsv).skip(1),
{
    assert forall|k: int| 0 <= k < gsv.len() - 1 implies groups_view(gsv.skip(1))[k] == groups_view(
        gsv,
    ).skip(1)[k] by {
        assert(groups_view(gsv.skip(1))[k] == gsv.skip(1)[k]@);
        assert(gsv.skip(1)[k] == gsv[k + 1]);
        assert(groups_view(gsv)[k + 1] == gsv[k + 1]@);
    }
}

/// Settle every group into a final outcome, consuming one decision per
/// ambiguity group (none when `keep_all` holds).  `superseded` and
/// `ignored` arrive holding what the scan pass already settled, and the
/// result extends them exactly as `resolve_fold` says.
#[verifier::loop_isolation(false)]
pub fn finalize_groups(
    groups: Vec<Packages>,
    keep_all: bool,
    decisions: &Vec<AmbiguityDecision>,
    superseded: Vec<String>,
    ignored: Vec<String>,
) -> (r: ResolutionOutcome)
    requires
        choices_ok(groups_view(groups@), keep_all, decisions@),
    ensures
        r@ == resolve_fold(
            OutcomeM {
                kept: Seq::empty(),
                superseded: paths_view(superseded@),
                ignored: paths_view(ignored@),
            },
            groups_view(groups@),
            keep_all,
            decisions@,
        ),
{
    let ghost gv = groups_view(groups@);
    let ghost dv = decisions@;
    let mut out = ResolutionOutcome { kept: Vec::new(), superseded, ignored };
    let ghost acc0 = out@;
    let mut gs = groups;
    let dn = decisions.len();
    let mut di: usize = 0;
    proof {
        assert(dn == dv.len());
        assert(pkgs_view(Seq::<Package>::empty()) =~= Seq::<PkgM>::empty());
        assert(groups_view(gs@) =~= gv.skip(0));
        assert(dv.skip(0) =~= dv);
    }
    while gs.len() > 0
        invariant
            di <= dv.len(),
            groups_view(gs@) == gv.skip(gv.len() - gs@.len()),
            gs@.len() <= gv.len(),
            choices_ok(groups_view(gs@), keep_all, dv.skip(di as int)),
            resolve_fold(out@, groups_view(gs@), keep_all, dv.skip(di as int)) == resolve_fold(
                acc0,
                gv,
                keep_all,
                dv,
            ),
        decreases gs@.len(),
    {
        let ghost gsv = gs@;
        let ghost st0 = out@;
        let ghost rem = groups_view(gsv);
        let g = gs.remove(0);
        proof {
            lemma_groups_view_skip1(gsv);
            assert(gs@ =~= gsv.skip(1));
            assert(g@ == rem[0]);
            assert(groups_view(gs@) =~= rem.skip(1));
            assert(gv.skip(gv.len() - gsv.len()).skip(1) =~= gv.skip(gv.len() - gsv.len() + 1));
        }
        if !g.has_ambs() {
            let ghost keptv = out.kept@;
            let ghost gbest = g@.best;
            out.kept.push(g.0);
            proof {
                assert(out.kept@ == keptv.push(gsv[0].0));
                lemma_pkgs_view_push(keptv, gsv[0].0);
                assert(gsv[0].0@ == gbest);
                assert(out@ =~~= resolve_group_spec(st0, rem[0], keep_all, AmbiguityDecision::IgnoreAll));
            }
        } else {
            let ghost gm = g@;
            let cands = sorted_candidates(g);
            if keep_all {
                append_pkgs(&mut out.kept, cands);
                proof {
                    assert(out@ =~~= resolve_group_spec(st0, rem[0], keep_all, AmbiguityDecision::IgnoreAll));
                }
            } else {
                let d = decisions[di];
                proof {
                    assert(dv.skip(di as int)[0] == dv[di as int]);
                    assert(dv.skip(di as int).len() > 0);
                    assert(d == dv.skip(di as int)[0]);
                    if d is Keep {
                        assert((d->0 as int) < gm.ambs.len() + 1);
                        assert(cands@.len() == group_members(gm).len());
                    }
                }
                apply_decision(cands, d, &mut out.kept, &mut out.superseded, &mut out.ignored);
                proof {
                    assert(pkgs_view(cands@) == sort_desc(group_members(gm)));
                    assert(out@ =~~= resolve_group_spec(st0, rem[0], keep_all, d));
                    assert(dv.skip(di as int).skip(1) =~= dv.skip(di + 1));
                    assert(di < decisions@.len());
                }
                di = di + 1;
            }
        }
    }
    proof {
        assert(groups_view(gs@) =~= Seq::<GroupM>::empty());
    }
    out
}

/// Whether the decision list fits the groups: one usable decision per
/// ambiguity group, each `Keep` index within its group's candidates.
#[verifier::loop_isolation(false)]
pub fn check_choices(groups: &Vec<Packages>, keep_all: bool, decisions: &Vec<AmbiguityDecision>) -> (r:
    bool)
    ensures
        r == choices_ok(groups_view(groups@), keep_all, decisions@),
{
    let ghost gv = groups_view(groups@);
    let ghost dv = decisions@;
    proof {
        assert(gv.skip(0) =~= gv);
        assert(dv.skip(0) =~= dv);
    }
    let n = groups.len();
    let mut gi: usize = 0;
    let mut di: usize = 0;
    while gi < n
        invariant
            gi <= n,
            di <= dv.len(),
            n == groups@.len(),
            choices_ok(gv, keep_all, dv) == choices_ok(
                gv.skip(gi as int),
                keep_all,
                dv.skip(di as int),
            ),
        decreases n - gi,
    {
        proof {
            assert(gv.skip(gi as int)[0] == gv[gi as int]);
            assert(gv[gi as int] == groups@[gi as int]@);
            assert(gv.skip(gi as int).skip(1) =~= gv.skip(gi + 1));
        }
        if groups[gi].has_ambs() && !keep_all {
            if di >= decisions.len() {
                return false;
            }
            let d = decisions[di];
            proof {
                assert(dv.skip(di as int)[0] == dv[di as int]);
            }
            match d {
                AmbiguityDecision::Reprompt => {
                    return false;
                },
                AmbiguityDecision::Keep(ix) => {
                    if !(ix <= groups[gi].1.len()) {
                        proof {
                            assert(gv[gi as int].ambs.len() == groups@[gi as int].1@.len());
                        }
                        return false;
                    }
                    proof {
                        assert(gv[gi as int].ambs.len() == groups@[gi as int].1@.len());
                    }
                },
                AmbiguityDecision::IgnoreAll => {
                },
            }
            proof {
                assert(dv.skip(di as int).skip(1) =~= dv.skip(di + 1));
            }
            di = di + 1;
        }
        gi = gi + 1;
    }
    proof {
        assert(gv.skip(n as int) =~= Seq::<GroupM>::empty());
    }
    true
}


// ---------------------------------------------------------------------------
// Interpreting one line of interactive input for one ambiguity group.
// ---------------------------------------------------------------------------

/// A decimal digit.
pub open spec fn is_digit(c: char) -> bool {
    ('0' as int) <= (c as int) <= ('9' as int)
}

/// A non-empty run of decimal digits.
pub open spec fn all_digits(s: Seq<char>) -> bool {
    s.len() > 0 && forall|i: int| 0 <= i < s.len() ==> is_digit(#[trigger] s[i])
}

/// The number a run of decimal digits denotes.
pub open spec fn digits_val(s: Seq<char>) -> int
    decreases s.len(),
{
    if s.len() == 0 {
        0
    } else {
        digits_val(s.drop_last()) * 10 + (s.last() as int) - ('0' as int)
    }
}

/// The line without its trailing newline, if it carries one.
pub open spec fn strip_newline(l: Seq<char>) -> Seq<char> {
    if l.len() > 0 && l.last() == '\n' {
        l.drop_last()
    } else {
        l
    }
}

/// What one line of input means for a group of `count` candidates: empty
/// input keeps the first candidate; the sentinel `i` ignores the whole
/// group; a decimal index below `count` keeps that candidate; anything
/// else re-prompts, changing nothing.
pub open spec fn spec_interpret(l: Seq<char>, count: int) -> AmbiguityDecision {
    let s = strip_newline(l);
    if s.len() == 0 {
        AmbiguityDecision::Keep(0)
    } else if s == seq!['i'] {
        AmbiguityDecision::IgnoreAll
    } else if all_digits(s) && digits_val(s) < count {
        AmbiguityDecision::Keep(digits_val(s) as usize)
    } else {
        AmbiguityDecision::Reprompt
    }
}

proof fn lemma_digits_val_nonneg(s: Seq<char>)
    requires
        forall|i: int| 0 <= i < s.len() ==> is_digit(#[trigger] s[i]),
    ensures
        digits_val(s) >= 0,
    decreases s.len(),
{
    if s.len() > 0 {
        lemma_digits_val_nonneg(s.drop_last());
    }
}

/// Reading more digits never makes the number smaller.
proof fn lemma_digits_val_prefix(s: Seq<char>, k: int)
    requires
        forall|i: int| 0 <= i < s.len() ==> is_digit(#[trigger] s[i]),
        0 <= k <= s.len(),
    ensures
        digits_val(s.take(k)) <= digits_val(s),
    decreases s.len(),
{
    if k == s.len() {
        assert(s.take(k) =~= s);
    } else {
        lemma_digits_val_nonneg(s.drop_last());
        lemma_digits_val_prefix(s.drop_last(), k);
        assert(s.drop_last().take(k) =~= s.take(k));
    }
}

/// Interpret one line of interactive input against a sorted candidate list
/// of `count` entries.  Exactly `spec_interpret`; a `Keep` result is always
/// in range.
#[verifier::loop_isolation(false)]
pub fn interpret_choice(line: &str, count: usize) -> (r: AmbiguityDecision)
    requires
        count >= 1,
    ensures
        r == spec_interpret(line@, count as int),
        r is Keep ==> (r->0 as int) < count,
{
    let ghost s = strip_newline(line@);
    let n = line.unicode_len();
    let m = if n > 0 && line.get_char(n - 1) == '\n' {
        n - 1
    } else {
        n
    };
    proof {
        assert(s =~= line@.take(m as int));
    }
    if m == 0 {
        return AmbiguityDecision::Keep(0);
    }
    if m == 1 && line.get_char(0) == 'i' {
        proof {
            assert(s =~= seq!['i']);
        }
        return AmbiguityDecision::IgnoreAll;
    }
    let cnt: u128 = count as u128;
    let mut val: u128 = 0;
    let mut i: usize = 0;
    proof {
        assert(s.take(0) =~= Seq::<char>::empty());
        if m == 1 {
            assert(s.len() == 1);
        } else {
            assert(s.len() != 1);
        }
        assert(s != seq!['i'] || line@.take(m as int)[0] == 'i');
    }
    while i < m
        invariant
            i <= m,
            m <= n,
            n == line@.len(),
            s == line@.take(m as int),
            s.len() == m,
            s != seq!['i'],
            forall|j: int| 0 <= j < i ==> is_digit(#[trigger] s[j]),
            val as int == digits_val(s.take(i as int)),
            val < cnt,
            cnt == count as u128,
        decreases m - i,
    {
        let c = line.get_char(i);
        proof {
            assert(s[i as int] == line@[i as int]);
        }
        if (c as u32) < 48 || (c as u32) > 57 {
            proof {
                assert(!is_digit(s[i as int]));
                assert(!all_digits(s));
            }
            return AmbiguityDecision::Reprompt;
        }
        let d: u128 = (c as u32 - 48) as u128;
        val = val * 10 + d;
        proof {
            assert(s.take(i + 1) =~= s.take(i as int).push(s[i as int]));
            assert(s.take(i + 1).drop_last() =~= s.take(i as int));
            assert(s.take(i + 1).last() == s[i as int]);
            assert(digits_val(s.take(i + 1)) == digits_val(s.take(i as int)) * 10 + (s[i as int]
                as int) - ('0' as int));
            assert(val as int == digits_val(s.take(i + 1)));
        }
        if val >= cnt {
            proof {
                if all_digits(s) {
                    lemma_digits_val_prefix(s, i + 1);
                    assert(digits_val(s) >= cnt as int);
                }
            }
            return AmbiguityDecision::Reprompt;
        }
        i = i + 1;
    }
    proof {
        assert(s.take(m as int) =~= s);
        assert(all_digits(s));
        assert(val as int == digits_val(s));
    }
    AmbiguityDecision::Keep(val as usize)
}

// ---------------------------------------------------------------------------
// The signature-file linker: runs only after kept, superseded and ignored
// are fully settled, and propagates each data file's fate to its detached
// signature file.
// ---------------------------------------------------------------------------

/// The implied data-file path of a signature file: the path with the
/// four-character signature suffix stripped.
pub open spec fn strip_sig(p: Seq<char>) -> Seq<char> {
    p.take(p.len() - 4)
}

/// One signature file settles: if its data file is superseded, so is it;
/// if its data file is not kept (ignored, unparsable or missing), it is
/// ignored; a kept data file leaves its signature untouched.
pub open spec fn link_step(acc: OutcomeM, sig: Seq<char>) -> OutcomeM {
    let data = strip_sig(sig);
    if acc.superseded.contains(data) {
        OutcomeM { superseded: acc.superseded.push(sig), ..acc }
    } else if !cand_paths(acc.kept).contains(data) {
        OutcomeM { ignored: acc.ignored.push(sig), ..acc }
    } else {
        acc
    }
}

/// The linker pass over the signature files, in order.
pub open spec fn link_fold(acc: OutcomeM, sigs: Seq<Seq<char>>) -> OutcomeM
    decreases sigs.len(),
{
    if sigs.len() == 0 {
        acc
    } else {
        link_fold(link_step(acc, sigs[0]), sigs.skip(1))
    }
}

/// Whether a kept file's path equals `p`.
#[verifier::loop_isolation(false)]
fn kept_contains(v: &Vec<Package>, p: &String) -> (r: bool)
    ensures
        r == cand_paths(pkgs_view(v@)).contains(p@),
{
    let n = v.len();
    let mut i: usize = 0;
    while i < n
        invariant
            i <= n,
            n == v@.len(),
            forall|j: int| 0 <= j < i ==> v@[j]@.path != p@,
        decreases n - i,
    {
        if v[i].path == *p {
            assert(pkgs_view(v@)[i as int] == v@[i as int]@);
            assert(cand_paths(pkgs_view(v@))[i as int] == p@);
            return true;
        }
        i = i + 1;
    }
    assert forall|k: int| 0 <= k < cand_paths(pkgs_view(v@)).len() implies cand_paths(
        pkgs_view(v@),
    )[k] != p@ by {
        assert(pkgs_view(v@)[k] == v@[k]@);
        assert(cand_paths(pkgs_view(v@))[k] == pkgs_view(v@)[k].path);
    }
    false
}

/// Propagate each data file's settled fate to its detached signature file,
/// as `link_fold` says.  A signature file is superseded only when the data
/// file it names is superseded.
#[verifier::loop_isolation(false)]
pub fn link_signatures(outcome: &mut ResolutionOutcome, sig_files: Vec<String>)
    requires
        forall|j: int| 0 <= j < sig_files@.len() ==> (#[trigger] sig_files@[j]@).len() >= 4,
    ensures
        final(outcome)@ == link_fold(old(outcome)@, paths_view(sig_files@)),
{
    let ghost sv = paths_view(sig_files@);
    let ghost acc0 = old(outcome)@;
    let ghost total = sv.len() as int;
    proof {
        assert forall|j: int| 0 <= j < sv.len() implies (#[trigger] sv[j]).len() >= 4 by {
            assert(sv[j] == sig_files@[j]@);
        }
    }
    let mut rest = sig_files;
    proof {
        assert(paths_view(rest@) =~= sv.skip(0));
    }
    while rest.len() > 0
        invariant
            paths_view(rest@) == sv.skip(total - rest@.len()),
            rest@.len() <= total,
            link_fold(outcome@, sv.skip(total - rest@.len())) == link_fold(acc0, sv),
        decreases rest@.len(),
    {
        let ghost done = total - rest@.len();
        let ghost st0 = outcome@;
        let ghost restv = rest@;
        let sig = rest.remove(0);
        proof {
            lemma_paths_view_step(restv, sv, done);
            assert(sig@ == sv[done]);
            assert(rest@ =~= restv.skip(1));
            assert(paths_view(rest@) =~= sv.skip(done + 1));
            assert(sig@.len() >= 4);
        }
        let n = sig.unicode_len();
        let data = sig.substring_char(0, n - 4).to_owned();
        proof {
            assert(data@ =~= strip_sig(sig@));
        }
        if contains_path(&outcome.superseded, &data) {
            let ghost supv = outcome.superseded@;
            outcome.superseded.push(sig);
            proof {
                assert(outcome.superseded@ == supv.push(restv[0]));
                lemma_paths_view_push(supv, restv[0]);
                assert(outcome@ =~~= link_step(st0, sv[done]));
            }
        } else if !kept_contains(&outcome.kept, &data) {
            let ghost ignv = outcome.ignored@;
            outcome.ignored.push(sig);
            proof {
                assert(outcome.ignored@ == ignv.push(restv[0]));
                lemma_paths_view_push(ignv, restv[0]);
                assert(outcome@ =~~= link_step(st0, sv[done]));
            }
        } else {
            proof {
                assert(outcome@ =~~= link_step(st0, sv[done]));
            }
        }
        proof {
            assert(sv.skip(done).skip(1) =~= sv.skip(done + 1));
            assert(sv.skip(done)[0] == sv[done]);
            assert(link_fold(st0, sv.skip(done)) == link_fold(outcome@, sv.skip(done + 1)));
        }
    }
    proof {
        assert(sv.skip(total) =~= Seq::<Seq<char>>::empty());
    }
}


// ---------------------------------------------------------------------------
// The whole plan for one run: scan, resolve, link.
// ---------------------------------------------------------------------------

/// The outcome of one full planning pass over one directory's paths: the
/// scan builds groups and settles strictly-ordered files, the groups are
/// resolved by policy or decisions, and signature files follow their data
/// files.
pub open spec fn plan_spec(
    paths: Seq<Seq<char>>,
    keep_all: bool,
    ds: Seq<AmbiguityDecision>,
) -> OutcomeM {
    let st = scan_fold(scan_init(), paths);
    let resolved = resolve_fold(
        OutcomeM { kept: Seq::empty(), superseded: st.superseded, ignored: st.ignored },
        st.groups,
        keep_all,
        ds,
    );
    link_fold(resolved, st.sigs)
}

/// Every signature file the scan sets aside is long enough to carry the
/// four-character signature suffix.
proof fn lemma_scan_sigs_len(st: ScanM, paths: Seq<Seq<char>>)
    requires
        forall|j: int| 0 <= j < st.sigs.len() ==> (#[trigger] st.sigs[j]).len() >= 4,
    ensures
        forall|j: int|
            0 <= j < scan_fold(st, paths).sigs.len() ==> (#[trigger] scan_fold(
                st,
                paths,
            ).sigs[j]).len() >= 4,
    decreases paths.len(),
{
    if paths.len() > 0 {
        let p = paths[0];
        let st2 = scan_step(st, p);
        assert forall|j: int| 0 <= j < st2.sigs.len() implies (#[trigger] st2.sigs[j]).len()
            >= 4 by {
            if j < st.sigs.len() {
            } else {
                assert(st2.sigs[j] == p);
                assert(is_sig_name(p));
                crate::package::lemma_last_ix(p, '/');
                assert(spec_fname(p).len() <= p.len());
            }
        }
        lemma_scan_sigs_len(st2, paths.skip(1));
        assert(scan_fold(st, paths) == scan_fold(st2, paths.skip(1)));
    } else {
        assert(scan_fold(st, paths) == st);
    }
}

/// Plan one run: scan the paths, resolve every group, and link the
/// signature files.  `None` exactly when the decision list does not fit
/// the ambiguity groups the scan produced; nothing is planned then.
pub fn plan_removals(
    paths: &Vec<String>,
    keep_all: bool,
    decisions: &Vec<AmbiguityDecision>,
) -> (r: Option<ResolutionOutcome>)
    ensures
        (r is Some) == choices_ok(
            scan_fold(scan_init(), paths_view(paths@)).groups,
            keep_all,
            decisions@,
        ),
        r is Some ==> r->0@ == plan_spec(paths_view(paths@), keep_all, decisions@),
{
    let ghost pv = paths_view(paths@);
    let res = classify_files(paths);
    if !check_choices(&res.groups, keep_all, decisions) {
        return None;
    }
    let Resolution { groups, superseded, ignored, sig_files } = res;
    proof {
        assert(groups_view(groups@) == scan_fold(scan_init(), pv).groups);
        assert(paths_view(sig_files@) == scan_fold(scan_init(), pv).sigs);
        lemma_scan_sigs_len(scan_init(), pv);
        assert forall|j: int| 0 <= j < sig_files@.len() implies (#[trigger] sig_files@[j]@).len()
            >= 4 by {
            assert(paths_view(sig_files@)[j] == sig_files@[j]@);
        }
    }
    let mut out = finalize_groups(groups, keep_all, decisions, superseded, ignored);
    link_signatures(&mut out, sig_files);
    Some(out)
}

/// Whether one line of interactive input approves the removal step: only
/// the exact answer `y` followed by the line feed does.
pub fn removal_confirmed(line: &str) -> (r: bool)
    ensures
        r == (line@ == strip_newline(line@).push('\n') && strip_newline(line@) == seq!['y']),
{
    let n = line.unicode_len();
    if n != 2 {
        proof {
            if line@ == strip_newline(line@).push('\n') && strip_newline(line@) == seq!['y'] {
                assert(line@.len() == 2);
            }
        }
        return false;
    }
    let r = line.get_char(0) == 'y' && line.get_char(1) == '\n';
    proof {
        if r {
            assert(strip_newline(line@) =~= seq!['y']);
            assert(line@ =~= strip_newline(line@).push('\n'));
        } else {
            if line@ == strip_newline(line@).push('\n') && strip_newline(line@) == seq!['y'] {
                assert(line@[0] == 'y' && line@[1] == '\n');
            }
        }
    }
    r
}

} // verus!
