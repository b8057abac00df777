use vstd::prelude::*;
use vstd::seq_lib::lemma_multiset_commutative;

use crate::engine::cand_paths;
use crate::engine::group_members;
use crate::engine::group_paths;
use crate::engine::is_sig_name;
use crate::engine::link_fold;
use crate::engine::link_step;
use crate::engine::resolve_group_spec;
use crate::engine::scan_fold;
use crate::engine::scan_init;
use crate::engine::scan_step;
use crate::engine::sort_desc;
use crate::engine::strip_sig;
use crate::engine::AmbiguityDecision;
use crate::engine::OutcomeM;
use crate::engine::ScanM;
use crate::package::parsed_pkg;
use crate::package::path_parses;
use crate::package::GroupM;
use crate::package::PkgM;
use crate::vercmp::cmp_of;
use crate::vercmp::ComparisonResult;
use crate::engine::engine_step;
use crate::engine::find_ix;
use crate::engine::lemma_find_ix;
use crate::engine::insert_desc;
use crate::engine::choices_ok;
use crate::engine::resolve_fold;
use crate::engine::spec_str_lt;
use vstd::multiset::Multiset;

verus! {

// ---------------------------------------------------------------------------
// Laws of the resolution pipeline, stated over the same spec functions the
// executable functions are proved against.
// ---------------------------------------------------------------------------

proof fn lemma_contains_push<A>(s: Seq<A>, x: A, q: A)
    ensures
        s.push(x).contains(q) <==> (s.contains(q) || q == x),
{
    if s.push(x).contains(q) {
        let i = choose|i: int| 0 <= i < s.push(x).len() && s.push(x)[i] == q;
        if i < s.len() {
            assert(s[i] == q);
        }
    }
    if s.contains(q) {
        let i = choose|i: int| 0 <= i < s.len() && s[i] == q;
        assert(s.push(x)[i] == q);
    }
    if q == x {
        assert(s.push(x)[s.len() as int] == q);
    }
}

/// The linker never takes a path out of `superseded`, and never touches the
/// kept files.
pub proof fn lemma_link_monotone(acc: OutcomeM, sigs: Seq<Seq<char>>)
    ensures
        forall|q: Seq<char>|
            acc.superseded.contains(q) ==> #[trigger] link_fold(acc, sigs).superseded.contains(q),
        link_fold(acc, sigs).kept == acc.kept,
    decreases sigs.len(),
{
    if sigs.len() > 0 {
        let acc2 = link_step(acc, sigs[0]);
        assert forall|q: Seq<char>| acc.superseded.contains(q) implies acc2.superseded.contains(
            q,
        ) by {
            if acc2.superseded != acc.superseded {
                lemma_contains_push(acc.superseded, sigs[0], q);
            }
        }
        lemma_link_monotone(acc2, sigs.skip(1));
        assert(link_fold(acc, sigs) == link_fold(acc2, sigs.skip(1)));
    }
}

/// A signature file's outcome is never independently superseded: any path
/// that the linker pass adds to `superseded` has its implied data-file path
/// in the final `superseded` as well.
pub proof fn lemma_sig_superseded_only_with_data(
    acc: OutcomeM,
    sigs: Seq<Seq<char>>,
    q: Seq<char>,
)
    requires
        link_fold(acc, sigs).superseded.contains(q),
        !acc.superseded.contains(q),
    ensures
        link_fold(acc, sigs).superseded.contains(strip_sig(q)),
    decreases sigs.len(),
{
    if sigs.len() == 0 {
        assert(link_fold(acc, sigs) == acc);
    } else {
        let acc2 = link_step(acc, sigs[0]);
        assert(link_fold(acc, sigs) == link_fold(acc2, sigs.skip(1)));
        if acc2.superseded.contains(q) {
            if acc.superseded.contains(strip_sig(sigs[0])) {
                assert(acc2.superseded == acc.superseded.push(sigs[0]));
                lemma_contains_push(acc.superseded, sigs[0], q);
                assert(q == sigs[0]);
                lemma_contains_push(acc.superseded, sigs[0], strip_sig(q));
                assert(acc2.superseded.contains(strip_sig(q)));
                lemma_link_monotone(acc2, sigs.skip(1));
            } else {
                assert(acc2.superseded == acc.superseded);
                assert(false);
            }
        } else {
            lemma_sig_superseded_only_with_data(acc2, sigs.skip(1), q);
        }
    }
}

/// Re-running the engine over files whose package names are pairwise
/// distinct keeps every one of them: each becomes the best of its own
/// group, and nothing is superseded, ignored or ambiguous.
pub proof fn lemma_rerun_keeps_everything(st: ScanM, paths: Seq<Seq<char>>)
    requires
        forall|j: int|
            0 <= j < paths.len() ==> !is_sig_name(#[trigger] paths[j]) && path_parses(paths[j]),
        forall|j: int, k: int|
            0 <= j < k < paths.len() ==> parsed_pkg(paths[j]).name != parsed_pkg(paths[k]).name,
        forall|i: int, j: int|
            0 <= i < st.groups.len() && 0 <= j < paths.len() ==> (#[trigger] st.groups[i]).best.name
                != (#[trigger] parsed_pkg(paths[j])).name,
        st.ignored == Seq::<Seq<char>>::empty(),
    ensures
        scan_fold(st, paths).superseded == st.superseded,
        scan_fold(st, paths).ignored == st.ignored,
        scan_fold(st, paths).sigs == st.sigs,
        scan_fold(st, paths).groups.len() == st.groups.len() + paths.len(),
        forall|j: int|
            0 <= j < paths.len() ==> #[trigger] scan_fold(st, paths).groups[st.groups.len() + j]
                == (GroupM { best: parsed_pkg(paths[j]), ambs: Seq::empty() }),
        forall|i: int|
            0 <= i < st.groups.len() ==> #[trigger] scan_fold(st, paths).groups[i] == st.groups[i],
    decreases paths.len(),
{
    if paths.len() > 0 {
        let p = paths[0];
        let st2 = scan_step(st, p);
        crate::engine::lemma_find_ix(st.groups, parsed_pkg(p).name);
        let fi = crate::engine::find_ix(st.groups, parsed_pkg(p).name);
        if fi >= 0 {
            assert(st.groups[fi].best.name == parsed_pkg(p).name);
            assert(false);
        }
        assert(st2.groups == st.groups.push(
            GroupM { best: parsed_pkg(p), ambs: Seq::empty() },
        ));
        assert forall|j: int, k: int|
            0 <= j < k < paths.skip(1).len() implies parsed_pkg(paths.skip(1)[j]).name
            != parsed_pkg(paths.skip(1)[k]).name by {
            assert(paths.skip(1)[j] == paths[j + 1]);
            assert(paths.skip(1)[k] == paths[k + 1]);
        }
        assert forall|i: int, j: int|
            0 <= i < st2.groups.len() && 0 <= j < paths.skip(1).len() implies (
        #[trigger] st2.groups[i]).best.name != (#[trigger] parsed_pkg(
            paths.skip(1)[j],
        )).name by {
            assert(paths.skip(1)[j] == paths[j + 1]);
            if i < st.groups.len() {
                assert(st2.groups[i] == st.groups[i]);
            } else {
                assert(st2.groups[i].best.name == parsed_pkg(paths[0]).name);
            }
        }
        assert forall|j: int|
            0 <= j < paths.skip(1).len() implies !is_sig_name(#[trigger] paths.skip(1)[j])
            && path_parses(paths.skip(1)[j]) by {
            assert(paths.skip(1)[j] == paths[j + 1]);
        }
        lemma_rerun_keeps_everything(st2, paths.skip(1));
        assert(scan_fold(st, paths) == scan_fold(st2, paths.skip(1)));
        assert forall|j: int|
            0 <= j < paths.len() implies #[trigger] scan_fold(st, paths).groups[st.groups.len()
            + j] == (GroupM { best: parsed_pkg(paths[j]), ambs: Seq::empty() }) by {
            if j == 0 {
                assert(scan_fold(st, paths).groups[st.groups.len() as int] == st2.groups[st.groups.len() as int]);
            } else {
                assert(paths.skip(1)[j - 1] == paths[j]);
                assert(scan_fold(st2, paths.skip(1)).groups[st2.groups.len() + (j - 1)]
                    == (GroupM { best: parsed_pkg(paths.skip(1)[j - 1]), ambs: Seq::empty() }));
            }
        }
    } else {
        assert(scan_fold(st, paths) == st);
    }
}


// ---------------------------------------------------------------------------
// The partition law: over one run, the kept, superseded and ignored outputs
// hold the input files exactly once each -- no duplication, no loss.
// ---------------------------------------------------------------------------

/// Every path a list of groups holds, as a multiset.
pub open spec fn groups_paths_ms(gs: Seq<GroupM>) -> Multiset<Seq<char>>
    decreases gs.len(),
{
    if gs.len() == 0 {
        Multiset::empty()
    } else {
        group_paths(gs[0]).to_multiset().add(groups_paths_ms(gs.skip(1)))
    }
}

/// Every path an outcome holds, as a multiset.
pub open spec fn outcome_paths(o: OutcomeM) -> Multiset<Seq<char>> {
    cand_paths(o.kept).to_multiset().add(o.superseded.to_multiset()).add(o.ignored.to_multiset())
}

/// Every path a scan state holds, as a multiset.
pub open spec fn scan_paths_ms(st: ScanM) -> Multiset<Seq<char>> {
    groups_paths_ms(st.groups).add(st.superseded.to_multiset()).add(st.ignored.to_multiset()).add(
        st.sigs.to_multiset(),
    )
}

proof fn lemma_groups_paths_ms_push(gs: Seq<GroupM>, g: GroupM)
    ensures
        groups_paths_ms(gs.push(g)) =~= groups_paths_ms(gs).add(group_paths(g).to_multiset()),
    decreases gs.len(),
{
    broadcast use vstd::multiset::group_multiset_axioms;

    if gs.len() == 0 {
        assert(gs.push(g)[0] == g);
        assert(gs.push(g).skip(1) =~= Seq::<GroupM>::empty());
        assert(groups_paths_ms(gs.push(g)) == group_paths(g).to_multiset().add(
            groups_paths_ms(Seq::<GroupM>::empty()),
        ));
        assert(groups_paths_ms(gs.push(g)) =~= groups_paths_ms(gs).add(
            group_paths(g).to_multiset(),
        ));
    } else {
        assert(gs.push(g).skip(1) =~= gs.skip(1).push(g));
        assert(gs.push(g)[0] == gs[0]);
        lemma_groups_paths_ms_push(gs.skip(1), g);
        assert(groups_paths_ms(gs.push(g)) == group_paths(gs[0]).to_multiset().add(
            groups_paths_ms(gs.skip(1).push(g)),
        ));
        assert forall|x: Seq<char>|
            groups_paths_ms(gs.push(g)).count(x) == groups_paths_ms(gs).add(
                group_paths(g).to_multiset(),
            ).count(x) by {
            assert(groups_paths_ms(gs.skip(1).push(g)).count(x) == groups_paths_ms(
                gs.skip(1),
            ).add(group_paths(g).to_multiset()).count(x));
        }
        assert(groups_paths_ms(gs.push(g)) =~= groups_paths_ms(gs).add(
            group_paths(g).to_multiset(),
        ));
    }
}

proof fn lemma_groups_paths_ms_update(gs: Seq<GroupM>, i: int, g2: GroupM)
    requires
        0 <= i < gs.len(),
    ensures
        groups_paths_ms(gs.update(i, g2)).add(group_paths(gs[i]).to_multiset())
            =~= groups_paths_ms(gs).add(group_paths(g2).to_multiset()),
    decreases gs.len(),
{
    broadcast use vstd::multiset::group_multiset_axioms;

    if i == 0 {
        assert(gs.update(0, g2)[0] == g2);
        assert(gs.update(0, g2).skip(1) =~= gs.skip(1));
    } else {
        assert(gs.update(i, g2)[0] == gs[0]);
        assert(gs.update(i, g2).skip(1) =~= gs.skip(1).update(i - 1, g2));
        assert(gs.skip(1)[i - 1] == gs[i]);
        lemma_groups_paths_ms_update(gs.skip(1), i - 1, g2);
        assert(groups_paths_ms(gs.update(i, g2)) == group_paths(gs[0]).to_multiset().add(
            groups_paths_ms(gs.skip(1).update(i - 1, g2)),
        ));
        assert forall|x: Seq<char>|
            groups_paths_ms(gs.update(i, g2)).add(group_paths(gs[i]).to_multiset()).count(x)
                == groups_paths_ms(gs).add(group_paths(g2).to_multiset()).count(x) by {
            assert(groups_paths_ms(gs.skip(1).update(i - 1, g2)).add(
                group_paths(gs.skip(1)[i - 1]).to_multiset(),
            ).count(x) == groups_paths_ms(gs.skip(1)).add(
                group_paths(g2).to_multiset(),
            ).count(x));
        }
        assert(groups_paths_ms(gs.update(i, g2)).add(group_paths(gs[i]).to_multiset())
            =~= groups_paths_ms(gs).add(group_paths(g2).to_multiset()));
    }
}

/// The two complementary re-classification filters split a member list's
/// paths without loss or duplication.
proof fn lemma_filter_paths_partition(ms: Seq<PkgM>, p: PkgM)
    ensures
        cand_paths(
            ms.filter(|m: PkgM| cmp_of(m.ver, p.ver) != ComparisonResult::Less),
        ).to_multiset().add(
            cand_paths(
                ms.filter(|m: PkgM| cmp_of(m.ver, p.ver) == ComparisonResult::Less),
            ).to_multiset(),
        ) =~= cand_paths(ms).to_multiset(),
    decreases ms.len(),
{
    broadcast use vstd::seq_lib::group_to_multiset_ensures;
    broadcast use vstd::multiset::group_multiset_axioms;

    let keep = |m: PkgM| cmp_of(m.ver, p.ver) != ComparisonResult::Less;
    let drop = |m: PkgM| cmp_of(m.ver, p.ver) == ComparisonResult::Less;
    if ms.len() == 0 {
        reveal(Seq::filter);
        assert(cand_paths(ms.filter(keep)) =~= Seq::<Seq<char>>::empty());
        assert(cand_paths(ms.filter(drop)) =~= Seq::<Seq<char>>::empty());
        assert(cand_paths(ms) =~= Seq::<Seq<char>>::empty());
    } else {
        let dl = ms.drop_last();
        let x = ms.last();
        lemma_filter_paths_partition(dl, p);
        assert(dl.push(x) =~= ms);
        crate::engine::lemma_filter_push(dl, keep, x);
        crate::engine::lemma_filter_push(dl, drop, x);
        if keep(x) {
            crate::engine::lemma_cand_paths_push(dl.filter(keep), x);
        } else {
            crate::engine::lemma_cand_paths_push(dl.filter(drop), x);
        }
        crate::engine::lemma_cand_paths_push(dl, x);
        assert(cand_paths(dl).to_multiset().insert(x.path) =~= cand_paths(ms).to_multiset());
    }
}

/// One engine fold step accounts for exactly the new file's path: nothing
/// already held is lost, and the new path is held exactly once.
pub proof fn lemma_engine_step_partition(gs: Seq<GroupM>, sup: Seq<Seq<char>>, p: PkgM)
    requires
        find_ix(gs, p.name) >= 0 ==> !group_paths(gs[find_ix(gs, p.name)]).contains(p.path),
    ensures
        groups_paths_ms(engine_step(gs, sup, p).0).add(engine_step(gs, sup, p).1.to_multiset())
            =~= groups_paths_ms(gs).add(sup.to_multiset()).insert(p.path),
{
    broadcast use vstd::seq_lib::group_to_multiset_ensures;
    broadcast use vstd::multiset::group_multiset_axioms;

    lemma_find_ix(gs, p.name);
    let i = find_ix(gs, p.name);
    if i < 0 {
        let g = GroupM { best: p, ambs: Seq::empty() };
        lemma_groups_paths_ms_push(gs, g);
        assert(group_members(g) =~= seq![p]);
        assert(cand_paths(seq![p]) =~= seq![p.path]);
        assert(group_paths(g) =~= seq![p.path]);
        assert(seq![p.path] =~= Seq::<Seq<char>>::empty().push(p.path));
        assert(seq![p.path].to_multiset() =~= Multiset::empty().insert(p.path));
    } else {
        let g = gs[i];
        match cmp_of(p.ver, g.best.ver) {
            ComparisonResult::Greater => {
                let keep = |m: PkgM| cmp_of(m.ver, p.ver) != ComparisonResult::Less;
                let drop = |m: PkgM| cmp_of(m.ver, p.ver) == ComparisonResult::Less;
                let ms = group_members(g);
                let g2 = GroupM { best: p, ambs: ms.filter(keep) };
                lemma_groups_paths_ms_update(gs, i, g2);
                lemma_filter_paths_partition(ms, p);
                assert(group_members(g2) =~= seq![p] + ms.filter(keep));
                assert forall|k: int| 0 <= k < group_paths(g2).len() implies group_paths(g2)[k]
                    == (seq![p.path] + cand_paths(ms.filter(keep)))[k] by {
                    assert(group_paths(g2)[k] == group_members(g2)[k].path);
                    if k > 0 {
                        assert(group_members(g2)[k] == ms.filter(keep)[k - 1]);
                        assert(cand_paths(ms.filter(keep))[k - 1] == ms.filter(keep)[k - 1].path);
                    }
                }
                assert(group_paths(g2) =~= seq![p.path] + cand_paths(ms.filter(keep)));
                vstd::seq_lib::lemma_multiset_commutative(
                    seq![p.path],
                    cand_paths(ms.filter(keep)),
                );
                assert(seq![p.path] =~= Seq::<Seq<char>>::empty().push(p.path));
                assert(seq![p.path].to_multiset() =~= Multiset::empty().insert(p.path));
                vstd::seq_lib::lemma_multiset_commutative(
                    sup,
                    cand_paths(ms.filter(drop)),
                );
                assert(group_paths(g) == cand_paths(ms));
                let keepms = cand_paths(ms.filter(keep)).to_multiset();
                let dropms = cand_paths(ms.filter(drop)).to_multiset();
                assert(engine_step(gs, sup, p).0 == gs.update(i, g2));
                assert(engine_step(gs, sup, p).1.to_multiset() =~= sup.to_multiset().add(dropms));
                assert(group_paths(g2).to_multiset() =~= keepms.insert(p.path));
                assert(keepms.add(dropms) =~= group_paths(g).to_multiset());
                let lhs = groups_paths_ms(engine_step(gs, sup, p).0).add(
                    engine_step(gs, sup, p).1.to_multiset(),
                );
                let rhs = groups_paths_ms(gs).add(sup.to_multiset()).insert(p.path);
                assert forall|x: Seq<char>| lhs.count(x) == rhs.count(x) by {
                    assert(groups_paths_ms(gs.update(i, g2)).add(
                        group_paths(g).to_multiset(),
                    ).count(x) == groups_paths_ms(gs).add(group_paths(g2).to_multiset()).count(x));
                    assert(keepms.add(dropms).count(x) == group_paths(g).to_multiset().count(x));
                    assert(group_paths(g2).to_multiset().count(x) == keepms.insert(p.path).count(
                        x,
                    ));
                    assert(keepms.count(x) + dropms.count(x) == group_paths(g).to_multiset().count(
                        x,
                    ));
                    assert(engine_step(gs, sup, p).1.to_multiset().count(x) == sup.to_multiset().count(
                        x,
                    ) + dropms.count(x));
                }
                assert(lhs =~= rhs);
            },
            ComparisonResult::Less => {
                assert(sup.push(p.path).to_multiset() =~= sup.to_multiset().insert(p.path));
            },
            ComparisonResult::Equal => {
                let g2 = GroupM { best: g.best, ambs: g.ambs.push(p) };
                lemma_groups_paths_ms_update(gs, i, g2);
                assert(group_members(g2) =~= group_members(g).push(p));
                crate::engine::lemma_cand_paths_push(group_members(g), p);
                assert(group_paths(g2) =~= group_paths(g).push(p.path));
                assert(group_paths(g2).to_multiset() =~= group_paths(g).to_multiset().insert(
                    p.path,
                ));
                assert(engine_step(gs, sup, p).0 == gs.update(i, g2));
                assert(engine_step(gs, sup, p).1 == sup);
                let lhs = groups_paths_ms(engine_step(gs, sup, p).0).add(
                    engine_step(gs, sup, p).1.to_multiset(),
                );
                let rhs = groups_paths_ms(gs).add(sup.to_multiset()).insert(p.path);
                assert forall|x: Seq<char>| lhs.count(x) == rhs.count(x) by {
                    assert(groups_paths_ms(gs.update(i, g2)).add(
                        group_paths(g).to_multiset(),
                    ).count(x) == groups_paths_ms(gs).add(group_paths(g2).to_multiset()).count(x));
                    assert(group_paths(g2).to_multiset().count(x) == group_paths(
                        g,
                    ).to_multiset().insert(p.path).count(x));
                }
                assert(lhs =~= rhs);
            },
        }
    }
}


/// Mapping to paths commutes with concatenation.
proof fn lemma_cand_paths_concat(a: Seq<PkgM>, b: Seq<PkgM>)
    ensures
        cand_paths(a + b) =~= cand_paths(a) + cand_paths(b),
{
    assert forall|k: int| 0 <= k < a.len() + b.len() implies cand_paths(a + b)[k] == (cand_paths(a)
        + cand_paths(b))[k] by {
        assert(cand_paths(a + b)[k] == (a + b)[k].path);
        if k < a.len() {
            assert((a + b)[k] == a[k]);
            assert(cand_paths(a)[k] == a[k].path);
        } else {
            assert((a + b)[k] == b[k - a.len()]);
            assert(cand_paths(b)[k - a.len()] == b[k - a.len()].path);
        }
    }
}

proof fn lemma_insert_desc_paths_ms(s: Seq<PkgM>, x: PkgM)
    ensures
        cand_paths(insert_desc(s, x)).to_multiset() =~= cand_paths(s).to_multiset().insert(x.path),
    decreases s.len(),
{
    broadcast use vstd::seq_lib::group_to_multiset_ensures;
    broadcast use vstd::multiset::group_multiset_axioms;

    if s.len() > 0 && spec_str_lt(s.last().ver, x.ver) {
        let dl = s.drop_last();
        lemma_insert_desc_paths_ms(dl, x);
        assert(insert_desc(s, x) == insert_desc(dl, x).push(s.last()));
        crate::engine::lemma_cand_paths_push(insert_desc(dl, x), s.last());
        assert(cand_paths(insert_desc(s, x)) =~= cand_paths(insert_desc(dl, x)).push(
            s.last().path,
        ));
        assert(dl.push(s.last()) =~= s);
        crate::engine::lemma_cand_paths_push(dl, s.last());
        assert(cand_paths(s) =~= cand_paths(dl).push(s.last().path));
        assert(cand_paths(s).to_multiset() =~= cand_paths(dl).to_multiset().insert(s.last().path));
        assert(cand_paths(insert_desc(s, x)).to_multiset() =~= cand_paths(
            insert_desc(dl, x),
        ).to_multiset().insert(s.last().path));
        assert forall|q: Seq<char>|
            cand_paths(insert_desc(s, x)).to_multiset().count(q) == cand_paths(
                s,
            ).to_multiset().insert(x.path).count(q) by {}
        assert(cand_paths(insert_desc(s, x)).to_multiset() =~= cand_paths(s).to_multiset().insert(
            x.path,
        ));
    } else {
        assert(insert_desc(s, x) == s.push(x));
        crate::engine::lemma_cand_paths_push(s, x);
        assert(cand_paths(insert_desc(s, x)) =~= cand_paths(s).push(x.path));
    }
}

/// Sorting the candidates loses no path and duplicates none.
proof fn lemma_sort_desc_paths_ms(s: Seq<PkgM>)
    ensures
        cand_paths(sort_desc(s)).to_multiset() =~= cand_paths(s).to_multiset(),
    decreases s.len(),
{
    broadcast use vstd::seq_lib::group_to_multiset_ensures;
    broadcast use vstd::multiset::group_multiset_axioms;

    if s.len() > 0 {
        let dl = s.drop_last();
        lemma_sort_desc_paths_ms(dl);
        lemma_insert_desc_paths_ms(sort_desc(dl), s.last());
        assert(dl.push(s.last()) =~= s);
        crate::engine::lemma_cand_paths_push(dl, s.last());
        assert(cand_paths(s) =~= cand_paths(dl).push(s.last().path));
        assert(cand_paths(s).to_multiset() =~= cand_paths(dl).to_multiset().insert(s.last().path));
        assert forall|q: Seq<char>|
            cand_paths(sort_desc(s)).to_multiset().count(q) == cand_paths(s).to_multiset().count(
                q,
            ) by {}
        assert(cand_paths(sort_desc(s)).to_multiset() =~= cand_paths(s).to_multiset());
    } else {
        assert(cand_paths(sort_desc(s)) =~= Seq::<Seq<char>>::empty());
        assert(cand_paths(s) =~= Seq::<Seq<char>>::empty());
    }
}

/// One group's resolution accounts for exactly the group's files: whatever
/// the policy or decision, its members land in kept, superseded or ignored
/// exactly once each, and nothing already settled is touched.
pub proof fn lemma_resolve_group_partition(
    acc: OutcomeM,
    g: GroupM,
    keep_all: bool,
    d: AmbiguityDecision,
)
    requires
        g.ambs.len() > 0 && !keep_all ==> !(d is Reprompt) && (d is Keep ==> (d->0 as int)
            < g.ambs.len() + 1),
    ensures
        outcome_paths(resolve_group_spec(acc, g, keep_all, d)) =~= outcome_paths(acc).add(
            group_paths(g).to_multiset(),
        ),
{
    broadcast use vstd::seq_lib::group_to_multiset_ensures;
    broadcast use vstd::multiset::group_multiset_axioms;

    let out = resolve_group_spec(acc, g, keep_all, d);
    if g.ambs.len() == 0 {
        crate::engine::lemma_cand_paths_push(acc.kept, g.best);
        assert(cand_paths(out.kept) =~= cand_paths(acc.kept).push(g.best.path));
        assert(group_members(g) =~= seq![g.best]);
        assert(group_paths(g) =~= Seq::<Seq<char>>::empty().push(g.best.path));
        assert(group_paths(g).to_multiset() =~= Multiset::empty().insert(g.best.path));
        assert forall|q: Seq<char>|
            outcome_paths(out).count(q) == outcome_paths(acc).add(
                group_paths(g).to_multiset(),
            ).count(q) by {}
        assert(outcome_paths(out) =~= outcome_paths(acc).add(group_paths(g).to_multiset()));
    } else {
        let cands = sort_desc(group_members(g));
        lemma_sort_desc_paths_ms(group_members(g));
        assert(group_paths(g) == cand_paths(group_members(g)));
        if keep_all {
            lemma_cand_paths_concat(acc.kept, cands);
            lemma_multiset_commutative(cand_paths(acc.kept), cand_paths(cands));
            assert(cand_paths(out.kept).to_multiset() =~= cand_paths(acc.kept).to_multiset().add(
                cand_paths(cands).to_multiset(),
            ));
            assert forall|q: Seq<char>|
                outcome_paths(out).count(q) == outcome_paths(acc).add(
                    group_paths(g).to_multiset(),
                ).count(q) by {}
            assert(outcome_paths(out) =~= outcome_paths(acc).add(group_paths(g).to_multiset()));
        } else {
            match d {
                AmbiguityDecision::Keep(i) => {
                    let i = i as int;
                    assert(cands.len() == g.ambs.len() + 1) by {
                        assert(cand_paths(sort_desc(group_members(g))).to_multiset().len()
                            == cand_paths(group_members(g)).to_multiset().len());
                    }
                    assert(cands =~= cands.take(i) + seq![cands[i]] + cands.skip(i + 1));
                    lemma_cand_paths_concat(cands.take(i) + seq![cands[i]], cands.skip(i + 1));
                    lemma_cand_paths_concat(cands.take(i), seq![cands[i]]);
                    lemma_multiset_commutative(
                        cand_paths(cands.take(i) + seq![cands[i]]),
                        cand_paths(cands.skip(i + 1)),
                    );
                    lemma_multiset_commutative(
                        cand_paths(cands.take(i)),
                        cand_paths(seq![cands[i]]),
                    );
                    assert(cand_paths(seq![cands[i]]) =~= Seq::<Seq<char>>::empty().push(
                        cands[i].path,
                    ));
                    assert(cand_paths(seq![cands[i]]).to_multiset() =~= Multiset::empty().insert(
                        cands[i].path,
                    ));
                    crate::engine::lemma_cand_paths_push(acc.kept, cands[i]);
                    assert(cand_paths(out.kept) =~= cand_paths(acc.kept).push(cands[i].path));
                    lemma_multiset_commutative(
                        acc.superseded + cand_paths(cands.take(i)),
                        cand_paths(cands.skip(i + 1)),
                    );
                    lemma_multiset_commutative(acc.superseded, cand_paths(cands.take(i)));
                    assert forall|q: Seq<char>|
                        outcome_paths(out).count(q) == outcome_paths(acc).add(
                            group_paths(g).to_multiset(),
                        ).count(q) by {
                        assert(cand_paths(cands).to_multiset().count(q) == cand_paths(
                            cands.take(i),
                        ).to_multiset().count(q) + Multiset::empty().insert(cands[i].path).count(q)
                            + cand_paths(cands.skip(i + 1)).to_multiset().count(q));
                    }
                    assert(outcome_paths(out) =~= outcome_paths(acc).add(
                        group_paths(g).to_multiset(),
                    ));
                },
                _ => {
                    lemma_cand_paths_concat(Seq::<PkgM>::empty(), cands);
                    lemma_multiset_commutative(acc.ignored, cand_paths(cands));
                    assert(out.ignored == acc.ignored + cand_paths(cands));
                    assert(out.ignored.to_multiset() =~= acc.ignored.to_multiset().add(
                        cand_paths(cands).to_multiset(),
                    ));
                    assert forall|q: Seq<char>|
                        outcome_paths(out).count(q) == outcome_paths(acc).add(
                            group_paths(g).to_multiset(),
                        ).count(q) by {}
                    assert(outcome_paths(out) =~= outcome_paths(acc).add(
                        group_paths(g).to_multiset(),
                    ));
                },
            }
        }
    }
}

/// Resolving all groups accounts for exactly the files the groups hold.
pub proof fn lemma_resolve_fold_partition(
    acc: OutcomeM,
    gs: Seq<GroupM>,
    keep_all: bool,
    ds: Seq<AmbiguityDecision>,
)
    requires
        choices_ok(gs, keep_all, ds),
    ensures
        outcome_paths(resolve_fold(acc, gs, keep_all, ds)) =~= outcome_paths(acc).add(
            groups_paths_ms(gs),
        ),
    decreases gs.len(),
{
    broadcast use vstd::multiset::group_multiset_axioms;

    if gs.len() == 0 {
        assert(outcome_paths(resolve_fold(acc, gs, keep_all, ds)) =~= outcome_paths(acc).add(
            groups_paths_ms(gs),
        ));
    } else {
        let g = gs[0];
        if g.ambs.len() == 0 || keep_all {
            let acc2 = resolve_group_spec(acc, g, keep_all, AmbiguityDecision::IgnoreAll);
            lemma_resolve_group_partition(acc, g, keep_all, AmbiguityDecision::IgnoreAll);
            lemma_resolve_fold_partition(acc2, gs.skip(1), keep_all, ds);
        } else {
            let acc2 = resolve_group_spec(acc, g, keep_all, ds[0]);
            lemma_resolve_group_partition(acc, g, keep_all, ds[0]);
            lemma_resolve_fold_partition(acc2, gs.skip(1), keep_all, ds.skip(1));
        }
        assert forall|q: Seq<char>|
            outcome_paths(resolve_fold(acc, gs, keep_all, ds)).count(q) == outcome_paths(acc).add(
                groups_paths_ms(gs),
            ).count(q) by {}
        assert(outcome_paths(resolve_fold(acc, gs, keep_all, ds)) =~= outcome_paths(acc).add(
            groups_paths_ms(gs),
        ));
    }
}


/// A path one group holds is counted by the whole groups multiset.
proof fn lemma_groups_paths_ms_member(gs: Seq<GroupM>, i: int)
    requires
        0 <= i < gs.len(),
    ensures
        forall|x: Seq<char>|
            #[trigger] groups_paths_ms(gs).count(x) >= group_paths(gs[i]).to_multiset().count(x),
    decreases gs.len(),
{
    broadcast use vstd::multiset::group_multiset_axioms;

    if i > 0 {
        assert(gs.skip(1)[i - 1] == gs[i]);
        lemma_groups_paths_ms_member(gs.skip(1), i - 1);
    }
    assert forall|x: Seq<char>|
        #[trigger] groups_paths_ms(gs).count(x) >= group_paths(gs[i]).to_multiset().count(x) by {
        assert(groups_paths_ms(gs) == group_paths(gs[0]).to_multiset().add(
            groups_paths_ms(gs.skip(1)),
        ));
        if i > 0 {
            assert(groups_paths_ms(gs.skip(1)).count(x) >= group_paths(
                gs.skip(1)[i - 1],
            ).to_multiset().count(x));
        }
    }
}

/// The scan pass accounts for every path exactly once, as long as no path
/// is given twice and none is already held.
pub proof fn lemma_scan_partition(st: ScanM, paths: Seq<Seq<char>>)
    requires
        forall|j: int, k: int| 0 <= j < k < paths.len() ==> paths[j] != paths[k],
        forall|j: int| 0 <= j < paths.len() ==> scan_paths_ms(st).count(#[trigger] paths[j]) == 0,
    ensures
        scan_paths_ms(scan_fold(st, paths)) =~= scan_paths_ms(st).add(paths.to_multiset()),
    decreases paths.len(),
{
    broadcast use vstd::seq_lib::group_to_multiset_ensures;
    broadcast use vstd::multiset::group_multiset_axioms;

    if paths.len() == 0 {
        assert(paths.to_multiset() =~= Multiset::empty());
        assert(scan_paths_ms(scan_fold(st, paths)) =~= scan_paths_ms(st).add(paths.to_multiset()));
    } else {
        let p = paths[0];
        let st2 = scan_step(st, p);
        assert(scan_paths_ms(st).count(p) == 0);
        assert(!st.ignored.contains(p)) by {
            if st.ignored.contains(p) {
                assert(st.ignored.to_multiset().count(p) > 0);
            }
        }
        if is_sig_name(p) {
            assert(st2.sigs == st.sigs.push(p));
            assert(st2.sigs.to_multiset() =~= st.sigs.to_multiset().insert(p));
            assert forall|x: Seq<char>|
                scan_paths_ms(st2).count(x) == scan_paths_ms(st).insert(p).count(x) by {}
            assert(scan_paths_ms(st2) =~= scan_paths_ms(st).insert(p));
        } else if path_parses(p) {
            let pk = parsed_pkg(p);
            assert(pk.path == p);
            lemma_find_ix(st.groups, pk.name);
            let i = find_ix(st.groups, pk.name);
            if i >= 0 && group_paths(st.groups[i]).contains(pk.path) {
                assert(group_paths(st.groups[i]).to_multiset().count(p) > 0);
                lemma_groups_paths_ms_member(st.groups, i);
                assert(false);
            }
            lemma_engine_step_partition(st.groups, st.superseded, pk);
            assert forall|x: Seq<char>|
                scan_paths_ms(st2).count(x) == scan_paths_ms(st).insert(p).count(x) by {
                assert(groups_paths_ms(engine_step(st.groups, st.superseded, pk).0).add(
                    engine_step(st.groups, st.superseded, pk).1.to_multiset(),
                ).count(x) == groups_paths_ms(st.groups).add(
                    st.superseded.to_multiset(),
                ).insert(pk.path).count(x));
            }
            assert(scan_paths_ms(st2) =~= scan_paths_ms(st).insert(p));
        } else {
            assert(st2.ignored == st.ignored.push(p));
            assert(st2.ignored.to_multiset() =~= st.ignored.to_multiset().insert(p));
            assert forall|x: Seq<char>|
                scan_paths_ms(st2).count(x) == scan_paths_ms(st).insert(p).count(x) by {}
            assert(scan_paths_ms(st2) =~= scan_paths_ms(st).insert(p));
        }
        assert forall|j: int, k: int|
            0 <= j < k < paths.skip(1).len() implies paths.skip(1)[j] != paths.skip(1)[k] by {
            assert(paths.skip(1)[j] == paths[j + 1]);
            assert(paths.skip(1)[k] == paths[k + 1]);
        }
        assert forall|j: int|
            0 <= j < paths.skip(1).len() implies scan_paths_ms(st2).count(
            #[trigger] paths.skip(1)[j],
        ) == 0 by {
            assert(paths.skip(1)[j] == paths[j + 1]);
            assert(paths[j + 1] != p);
            assert(scan_paths_ms(st).count(paths[j + 1]) == 0);
            assert(scan_paths_ms(st2).count(paths[j + 1]) == scan_paths_ms(st).insert(p).count(
                paths[j + 1],
            ));
        }
        lemma_scan_partition(st2, paths.skip(1));
        assert(scan_fold(st, paths) == scan_fold(st2, paths.skip(1)));
        assert(seq![p] + paths.skip(1) =~= paths);
        lemma_multiset_commutative(seq![p], paths.skip(1));
        assert(seq![p] =~= Seq::<Seq<char>>::empty().push(p));
        assert(seq![p].to_multiset() =~= Multiset::empty().insert(p));
        assert forall|x: Seq<char>|
            scan_paths_ms(scan_fold(st, paths)).count(x) == scan_paths_ms(st).add(
                paths.to_multiset(),
            ).count(x) by {
            assert(scan_paths_ms(scan_fold(st2, paths.skip(1))).count(x) == scan_paths_ms(
                st2,
            ).add(paths.skip(1).to_multiset()).count(x));
            assert(paths.to_multiset().count(x) == seq![p].to_multiset().add(
                paths.skip(1).to_multiset(),
            ).count(x));
        }
        assert(scan_paths_ms(scan_fold(st, paths)) =~= scan_paths_ms(st).add(paths.to_multiset()));
    }
}

/// The partition law of a whole run: with every path given once, the kept,
/// superseded and ignored outputs of the resolution, together with the
/// signature files set aside, hold the input paths exactly once each --
/// no duplication, no loss.  In particular this holds group by group: the
/// files of each package name land in the three outputs exactly once.
pub proof fn theorem_run_partition(
    paths: Seq<Seq<char>>,
    keep_all: bool,
    ds: Seq<AmbiguityDecision>,
)
    requires
        forall|j: int, k: int| 0 <= j < k < paths.len() ==> paths[j] != paths[k],
        choices_ok(scan_fold(scan_init(), paths).groups, keep_all, ds),
    ensures
        ({
            let st = scan_fold(scan_init(), paths);
            let out = resolve_fold(
                OutcomeM { kept: Seq::empty(), superseded: st.superseded, ignored: st.ignored },
                st.groups,
                keep_all,
                ds,
            );
            outcome_paths(out).add(st.sigs.to_multiset()) =~= paths.to_multiset()
        }),
{
    broadcast use vstd::seq_lib::group_to_multiset_ensures;
    broadcast use vstd::multiset::group_multiset_axioms;

    let st = scan_fold(scan_init(), paths);
    let acc = OutcomeM { kept: Seq::empty(), superseded: st.superseded, ignored: st.ignored };
    let out = resolve_fold(acc, st.groups, keep_all, ds);
    assert forall|j: int|
        0 <= j < paths.len() implies scan_paths_ms(scan_init()).count(#[trigger] paths[j])
        == 0 by {
        assert(scan_init().ignored.to_multiset() =~= Multiset::<Seq<char>>::empty());
        assert(scan_init().superseded.to_multiset() =~= Multiset::<Seq<char>>::empty());
        assert(scan_init().sigs.to_multiset() =~= Multiset::<Seq<char>>::empty());
    }
    lemma_scan_partition(scan_init(), paths);
    lemma_resolve_fold_partition(acc, st.groups, keep_all, ds);
    assert(cand_paths(Seq::<PkgM>::empty()) =~= Seq::<Seq<char>>::empty());
    assert forall|x: Seq<char>|
        outcome_paths(out).add(st.sigs.to_multiset()).count(x) == paths.to_multiset().count(
            x,
        ) by {
        assert(scan_paths_ms(st).count(x) == scan_paths_ms(scan_init()).add(
            paths.to_multiset(),
        ).count(x));
        assert(outcome_paths(out).count(x) == outcome_paths(acc).add(groups_paths_ms(
            st.groups,
        )).count(x));
    }
    assert(outcome_paths(out).add(st.sigs.to_multiset()) =~= paths.to_multiset());
}


// ---------------------------------------------------------------------------
// Idempotence: once the strictly superseded files are deleted and every
// ambiguity settled by keeping one candidate, a second run finds nothing
// left to do.
// ---------------------------------------------------------------------------

/// A file a group may hold: a parsed, non-signature package file.
pub open spec fn member_wf(m: PkgM) -> bool {
    &&& !is_sig_name(m.path)
    &&& path_parses(m.path)
    &&& m == parsed_pkg(m.path)
}

/// A well-formed group: every member is a parsed package file carrying the
/// group's name.
pub open spec fn group_wf(g: GroupM) -> bool {
    &&& member_wf(g.best)
    &&& forall|k: int|
        0 <= k < g.ambs.len() ==> member_wf(#[trigger] g.ambs[k]) && g.ambs[k].name
            == g.best.name
}

/// Well-formed groups: each well-formed, with pairwise distinct names.
pub open spec fn groups_wf(gs: Seq<GroupM>) -> bool {
    &&& forall|i: int| 0 <= i < gs.len() ==> group_wf(#[trigger] gs[i])
    &&& forall|i: int, j: int| 0 <= i < j < gs.len() ==> gs[i].best.name != gs[j].best.name
}

/// One engine fold step keeps the groups well-formed.
proof fn lemma_engine_step_wf(gs: Seq<GroupM>, sup: Seq<Seq<char>>, p: PkgM)
    requires
        groups_wf(gs),
        member_wf(p),
    ensures
        groups_wf(engine_step(gs, sup, p).0),
{
    broadcast use Seq::<PkgM>::lemma_filter_contains_rev;

    lemma_find_ix(gs, p.name);
    let i = find_ix(gs, p.name);
    if i < 0 {
        let gs2 = engine_step(gs, sup, p).0;
        assert(gs2 == gs.push(GroupM { best: p, ambs: Seq::empty() }));
        assert forall|a: int, b: int|
            0 <= a < b < gs2.len() implies gs2[a].best.name != gs2[b].best.name by {
            if b < gs.len() {
            } else {
                assert(gs2[b].best.name == p.name);
                assert(gs2[a] == gs[a]);
            }
        }
        assert forall|a: int| 0 <= a < gs2.len() implies group_wf(#[trigger] gs2[a]) by {
            if a < gs.len() {
                assert(gs2[a] == gs[a]);
            }
        }
    } else {
        let g = gs[i];
        assert(group_wf(g));
        if !group_paths(g).contains(p.path) {
            match cmp_of(p.ver, g.best.ver) {
                ComparisonResult::Greater => {
                    let keep = |m: PkgM| cmp_of(m.ver, p.ver) != ComparisonResult::Less;
                    let ms = group_members(g);
                    let g2 = GroupM { best: p, ambs: ms.filter(keep) };
                    assert(g.best.name == p.name);
                    assert forall|k: int|
                        0 <= k < g2.ambs.len() implies member_wf(#[trigger] g2.ambs[k])
                        && g2.ambs[k].name == g2.best.name by {
                        assert(ms.filter(keep).contains(ms.filter(keep)[k]));
                        assert(ms.contains(ms.filter(keep)[k]));
                        let w = ms.lemma_contains_to_index(ms.filter(keep)[k]);
                        if w == 0 {
                            assert(ms[0] == g.best);
                        } else {
                            assert(ms[w] == g.ambs[w - 1]);
                        }
                    }
                    assert(group_wf(g2));
                    let gs2 = engine_step(gs, sup, p).0;
                    assert(gs2 == gs.update(i, g2));
                    assert forall|a: int| 0 <= a < gs2.len() implies group_wf(
                        #[trigger] gs2[a],
                    ) by {
                        if a != i {
                            assert(gs2[a] == gs[a]);
                        }
                    }
                    assert forall|a: int, b: int|
                        0 <= a < b < gs2.len() implies gs2[a].best.name != gs2[b].best.name by {
                        assert(gs2[a].best.name == gs[a].best.name);
                        assert(gs2[b].best.name == gs[b].best.name);
                    }
                },
                ComparisonResult::Less => {
                },
                ComparisonResult::Equal => {
                    let g2 = GroupM { best: g.best, ambs: g.ambs.push(p) };
                    assert(g.best.name == p.name);
                    assert forall|k: int|
                        0 <= k < g2.ambs.len() implies member_wf(#[trigger] g2.ambs[k])
                        && g2.ambs[k].name == g2.best.name by {
                        if k < g.ambs.len() {
                            assert(g2.ambs[k] == g.ambs[k]);
                        } else {
                            assert(g2.ambs[k] == p);
                        }
                    }
                    assert(group_wf(g2));
                    let gs2 = engine_step(gs, sup, p).0;
                    assert(gs2 == gs.update(i, g2));
                    assert forall|a: int| 0 <= a < gs2.len() implies group_wf(
                        #[trigger] gs2[a],
                    ) by {
                        if a != i {
                            assert(gs2[a] == gs[a]);
                        }
                    }
                    assert forall|a: int, b: int|
                        0 <= a < b < gs2.len() implies gs2[a].best.name != gs2[b].best.name by {
                        assert(gs2[a].best.name == gs[a].best.name);
                        assert(gs2[b].best.name == gs[b].best.name);
                    }
                },
            }
        }
    }
}

/// The scan pass keeps the groups well-formed.
proof fn lemma_scan_wf(st: ScanM, paths: Seq<Seq<char>>)
    requires
        groups_wf(st.groups),
    ensures
        groups_wf(scan_fold(st, paths).groups),
    decreases paths.len(),
{
    if paths.len() > 0 {
        let p = paths[0];
        let st2 = scan_step(st, p);
        if !st.ignored.contains(p) && !is_sig_name(p) && path_parses(p) {
            assert(member_wf(parsed_pkg(p)));
            lemma_engine_step_wf(st.groups, st.superseded, parsed_pkg(p));
        }
        lemma_scan_wf(st2, paths.skip(1));
        assert(scan_fold(st, paths) == scan_fold(st2, paths.skip(1)));
    } else {
        assert(scan_fold(st, paths) == st);
    }
}

/// Every decision keeps one candidate.
pub open spec fn decisions_keep_one(ds: Seq<AmbiguityDecision>) -> bool {
    forall|j: int| 0 <= j < ds.len() ==> (#[trigger] ds[j]) is Keep
}

/// When every group is settled by keeping exactly one candidate, the kept
/// files are well-formed package files with pairwise distinct names.
proof fn lemma_resolved_kept_names(acc: OutcomeM, gs: Seq<GroupM>, ds: Seq<AmbiguityDecision>)
    requires
        choices_ok(gs, false, ds),
        decisions_keep_one(ds),
        groups_wf(gs),
        forall|a: int| 0 <= a < acc.kept.len() ==> member_wf(#[trigger] acc.kept[a]),
        forall|a: int, b: int|
            0 <= a < b < acc.kept.len() ==> acc.kept[a].name != acc.kept[b].name,
        forall|a: int, i: int|
            0 <= a < acc.kept.len() && 0 <= i < gs.len() ==> (#[trigger] acc.kept[a]).name != (
            #[trigger] gs[i]).best.name,
    ensures
        forall|a: int|
            0 <= a < resolve_fold(acc, gs, false, ds).kept.len() ==> member_wf(
                #[trigger] resolve_fold(acc, gs, false, ds).kept[a],
            ),
        forall|a: int, b: int|
            0 <= a < b < resolve_fold(acc, gs, false, ds).kept.len() ==> resolve_fold(
                acc,
                gs,
                false,
                ds,
            ).kept[a].name != resolve_fold(acc, gs, false, ds).kept[b].name,
    decreases gs.len(),
{
    broadcast use vstd::seq_lib::group_to_multiset_ensures;

    if gs.len() > 0 {
        let g = gs[0];
        let newkept: PkgM = if g.ambs.len() == 0 {
            g.best
        } else {
            let cands = sort_desc(group_members(g));
            let d = ds[0];
            cands[d->0 as int]
        };
        assert(member_wf(newkept) && newkept.name == g.best.name) by {
            if g.ambs.len() > 0 {
                let cands = sort_desc(group_members(g));
                let d = ds[0];
                let i = d->0 as int;
                crate::engine::lemma_sort_desc_multiset(group_members(g));
                assert(cands.to_multiset().len() == group_members(g).to_multiset().len());
                assert(cands.len() == group_members(g).len());
                assert(cands.contains(cands[i]));
                assert(cands.to_multiset().count(cands[i]) > 0);
                assert(group_members(g).to_multiset().count(cands[i]) > 0);
                assert(group_members(g).contains(cands[i]));
                let w = group_members(g).lemma_contains_to_index(cands[i]);
                if w == 0 {
                    assert(group_members(g)[0] == g.best);
                } else {
                    assert(group_members(g)[w] == g.ambs[w - 1]);
                }
            }
        }
        let acc2 = if g.ambs.len() == 0 {
            resolve_group_spec(acc, g, false, AmbiguityDecision::IgnoreAll)
        } else {
            resolve_group_spec(acc, g, false, ds[0])
        };
        assert(acc2.kept == acc.kept.push(newkept));
        assert forall|a: int| 0 <= a < acc2.kept.len() implies member_wf(
            #[trigger] acc2.kept[a],
        ) by {
            if a < acc.kept.len() {
                assert(acc2.kept[a] == acc.kept[a]);
            } else {
                assert(acc2.kept[a] == newkept);
            }
        }
        assert forall|a: int, b: int|
            0 <= a < b < acc2.kept.len() implies acc2.kept[a].name != acc2.kept[b].name by {
            if b < acc.kept.len() {
                assert(acc2.kept[a] == acc.kept[a] && acc2.kept[b] == acc.kept[b]);
            } else {
                assert(acc2.kept[b] == newkept);
                assert(acc2.kept[a] == acc.kept[a]);
                assert(acc.kept[a].name != gs[0].best.name);
            }
        }
        assert forall|a: int, i: int|
            0 <= a < acc2.kept.len() && 0 <= i < gs.skip(1).len() implies (
        #[trigger] acc2.kept[a]).name != (#[trigger] gs.skip(1)[i]).best.name by {
            assert(gs.skip(1)[i] == gs[i + 1]);
            if a < acc.kept.len() {
                assert(acc2.kept[a] == acc.kept[a]);
            } else {
                assert(acc2.kept[a] == newkept);
                assert(newkept.name == gs[0].best.name);
                assert(gs[0].best.name != gs[i + 1].best.name);
            }
        }
        assert forall|i: int| 0 <= i < gs.skip(1).len() implies group_wf(
            #[trigger] gs.skip(1)[i],
        ) by {
            assert(gs.skip(1)[i] == gs[i + 1]);
        }
        assert forall|i: int, j: int|
            0 <= i < j < gs.skip(1).len() implies gs.skip(1)[i].best.name != gs.skip(
            1,
        )[j].best.name by {
            assert(gs.skip(1)[i] == gs[i + 1]);
            assert(gs.skip(1)[j] == gs[j + 1]);
        }
        if g.ambs.len() == 0 {
            lemma_resolved_kept_names(acc2, gs.skip(1), ds);
            assert(resolve_fold(acc, gs, false, ds) == resolve_fold(acc2, gs.skip(1), false, ds));
        } else {
            assert forall|j: int| 0 <= j < ds.skip(1).len() implies (
            #[trigger] ds.skip(1)[j]) is Keep by {
                assert(ds.skip(1)[j] == ds[j + 1]);
            }
            lemma_resolved_kept_names(acc2, gs.skip(1), ds.skip(1));
            assert(resolve_fold(acc, gs, false, ds) == resolve_fold(
                acc2,
                gs.skip(1),
                false,
                ds.skip(1),
            ));
        }
    } else {
        assert(resolve_fold(acc, gs, false, ds) == acc);
    }
}

/// Idempotence of a whole run: when every ambiguity group is settled by
/// keeping one candidate, re-running the engine over the kept files
/// classifies every one of them as kept again -- each in its own group,
/// with nothing superseded, nothing ignored and no further ambiguity.
pub proof fn theorem_rerun_after_resolution(paths: Seq<Seq<char>>, ds: Seq<AmbiguityDecision>)
    requires
        choices_ok(scan_fold(scan_init(), paths).groups, false, ds),
        decisions_keep_one(ds),
    ensures
        ({
            let st = scan_fold(scan_init(), paths);
            let out = resolve_fold(
                OutcomeM { kept: Seq::empty(), superseded: st.superseded, ignored: st.ignored },
                st.groups,
                false,
                ds,
            );
            let rerun = scan_fold(scan_init(), cand_paths(out.kept));
            &&& rerun.superseded == Seq::<Seq<char>>::empty()
            &&& rerun.ignored == Seq::<Seq<char>>::empty()
            &&& rerun.sigs == Seq::<Seq<char>>::empty()
            &&& rerun.groups.len() == out.kept.len()
            &&& forall|j: int| 0 <= j < rerun.groups.len() ==> (#[trigger] rerun.groups[j]).ambs.len() == 0
        }),
{
    let st = scan_fold(scan_init(), paths);
    let acc = OutcomeM { kept: Seq::empty(), superseded: st.superseded, ignored: st.ignored };
    let out = resolve_fold(acc, st.groups, false, ds);
    lemma_scan_wf(scan_init(), paths);
    lemma_resolved_kept_names(acc, st.groups, ds);
    let kp = cand_paths(out.kept);
    assert forall|j: int|
        0 <= j < kp.len() implies !is_sig_name(#[trigger] kp[j]) && path_parses(kp[j]) by {
        assert(kp[j] == out.kept[j].path);
        assert(member_wf(out.kept[j]));
    }
    assert forall|j: int, k: int|
        0 <= j < k < kp.len() implies parsed_pkg(kp[j]).name != parsed_pkg(kp[k]).name by {
        assert(kp[j] == out.kept[j].path);
        assert(kp[k] == out.kept[k].path);
        assert(member_wf(out.kept[j]));
        assert(member_wf(out.kept[k]));
        assert(parsed_pkg(kp[j]).name == out.kept[j].name);
        assert(parsed_pkg(kp[k]).name == out.kept[k].name);
    }
    lemma_rerun_keeps_everything(scan_init(), kp);
    let rerun = scan_fold(scan_init(), kp);
    assert(scan_init().superseded == Seq::<Seq<char>>::empty());
    assert(scan_init().groups.len() == 0);
    assert(rerun.groups.len() == out.kept.len());
    assert forall|j: int| 0 <= j < rerun.groups.len() implies (
    #[trigger] rerun.groups[j]).ambs.len() == 0 by {
        assert(rerun.groups[scan_init().groups.len() + j] == (GroupM {
            best: parsed_pkg(kp[j]),
            ambs: Seq::empty(),
        }));
    }
}


/// Membership in `superseded` is permanent through the scan pass: a path
/// once held superseded stays superseded.
pub proof fn lemma_scan_superseded_monotone(st: ScanM, paths: Seq<Seq<char>>, q: Seq<char>)
    requires
        st.superseded.contains(q),
    ensures
        scan_fold(st, paths).superseded.contains(q),
    decreases paths.len(),
{
    if paths.len() > 0 {
        let p = paths[0];
        let st2 = scan_step(st, p);
        assert(st2.superseded.contains(q)) by {
            let sup = st.superseded;
            let i = choose|i: int| 0 <= i < sup.len() && sup[i] == q;
            if st2.superseded != sup {
                assert(st2.superseded[i] == q) by {
                    if !st.ignored.contains(p) && !is_sig_name(p) && path_parses(p) {
                        let e = engine_step(st.groups, st.superseded, parsed_pkg(p));
                        assert(e.1 == st2.superseded);
                    }
                }
            }
        }
        lemma_scan_superseded_monotone(st2, paths.skip(1), q);
        assert(scan_fold(st, paths) == scan_fold(st2, paths.skip(1)));
    } else {
        assert(scan_fold(st, paths) == st);
    }
}

/// Membership in `superseded` is permanent through the resolution pass.
pub proof fn lemma_resolve_superseded_monotone(
    acc: OutcomeM,
    gs: Seq<GroupM>,
    keep_all: bool,
    ds: Seq<AmbiguityDecision>,
    q: Seq<char>,
)
    requires
        acc.superseded.contains(q),
    ensures
        resolve_fold(acc, gs, keep_all, ds).superseded.contains(q),
    decreases gs.len(),
{
    if gs.len() > 0 {
        let g = gs[0];
        let d = if g.ambs.len() == 0 || keep_all {
            AmbiguityDecision::IgnoreAll
        } else {
            ds[0]
        };
        let acc2 = resolve_group_spec(acc, g, keep_all, d);
        assert(acc2.superseded.contains(q)) by {
            let sup = acc.superseded;
            let i = choose|i: int| 0 <= i < sup.len() && sup[i] == q;
            if acc2.superseded != sup {
                assert(acc2.superseded[i] == q);
            }
        }
        if g.ambs.len() == 0 || keep_all {
            lemma_resolve_superseded_monotone(acc2, gs.skip(1), keep_all, ds, q);
        } else {
            lemma_resolve_superseded_monotone(acc2, gs.skip(1), keep_all, ds.skip(1), q);
        }
    }
}

} // verus!
