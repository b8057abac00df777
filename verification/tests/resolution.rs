use remove_old_arch_pkgs::engine::classify_files;
use remove_old_arch_pkgs::engine::interpret_choice;
use remove_old_arch_pkgs::engine::is_sig_file;
use remove_old_arch_pkgs::engine::plan_removals;
use remove_old_arch_pkgs::engine::removal_confirmed;
use remove_old_arch_pkgs::engine::sorted_candidates;
use remove_old_arch_pkgs::engine::AmbiguityDecision;
use remove_old_arch_pkgs::options::AutoConfirmLevel;
use remove_old_arch_pkgs::options::Options;

fn paths(names: &[&str]) -> Vec<String> {
    names.iter().map(|n| n.to_string()).collect()
}

fn kept_paths(out: &remove_old_arch_pkgs::engine::ResolutionOutcome) -> Vec<String> {
    out.kept.iter().map(|p| p.path.clone()).collect()
}

#[test]
fn scenario_older_version_superseded() {
    let input = paths(&["foo-1.0-1-x86_64.pkg.tar.zst", "foo-1.1-1-x86_64.pkg.tar.zst"]);
    let out = plan_removals(&input, false, &Vec::new()).unwrap();
    assert_eq!(out.superseded, paths(&["foo-1.0-1-x86_64.pkg.tar.zst"]));
    assert_eq!(kept_paths(&out), paths(&["foo-1.1-1-x86_64.pkg.tar.zst"]));
    assert_eq!(out.ignored, Vec::<String>::new());
}

#[test]
fn scenario_sig_of_kept_file_stays_untouched() {
    let input = paths(&[
        "foo-1.0-1-x86_64.pkg.tar.zst",
        "foo-1.0-1-x86_64.pkg.tar.zst.sig",
        "bar.txt",
    ]);
    let out = plan_removals(&input, false, &Vec::new()).unwrap();
    assert_eq!(out.superseded, Vec::<String>::new());
    assert_eq!(out.ignored, paths(&["bar.txt"]));
    // the signature file follows its kept data file: it appears in no
    // output list
    assert_eq!(kept_paths(&out), paths(&["foo-1.0-1-x86_64.pkg.tar.zst"]));
}

#[test]
fn scenario_ambiguity_resolved_by_index_zero() {
    // the comparator cannot order these two version-strings, so they form
    // one ambiguity group; index 0 of the string-descending candidate list
    // is the `a.1-1` file
    let input = paths(&[
        "foo-1.a-1-x86_64.pkg.tar.zst",
        "foo-a.1-1-x86_64.pkg.tar.zst",
    ]);
    let out = plan_removals(&input, false, &vec![AmbiguityDecision::Keep(0)]).unwrap();
    assert_eq!(kept_paths(&out), paths(&["foo-a.1-1-x86_64.pkg.tar.zst"]));
    assert_eq!(out.superseded, paths(&["foo-1.a-1-x86_64.pkg.tar.zst"]));
    assert_eq!(out.ignored, Vec::<String>::new());
}

#[test]
fn scenario_keep_all_on_ambiguity() {
    // below the ambiguity confirmation tier, nothing is guessed: both
    // candidates stay kept and nothing is deleted
    let input = paths(&[
        "foo-1.a-1-x86_64.pkg.tar.zst",
        "foo-a.1-1-x86_64.pkg.tar.zst",
    ]);
    let out = plan_removals(&input, true, &Vec::new()).unwrap();
    assert_eq!(out.superseded, Vec::<String>::new());
    assert_eq!(out.ignored, Vec::<String>::new());
    let mut kept = kept_paths(&out);
    kept.sort();
    assert_eq!(
        kept,
        paths(&["foo-1.a-1-x86_64.pkg.tar.zst", "foo-a.1-1-x86_64.pkg.tar.zst"])
    );
}

#[test]
fn ignore_all_reports_every_candidate() {
    let input = paths(&[
        "foo-1.a-1-x86_64.pkg.tar.zst",
        "foo-a.1-1-x86_64.pkg.tar.zst",
    ]);
    let out = plan_removals(&input, false, &vec![AmbiguityDecision::IgnoreAll]).unwrap();
    assert_eq!(out.superseded, Vec::<String>::new());
    assert_eq!(kept_paths(&out), Vec::<String>::new());
    let mut ign = out.ignored.clone();
    ign.sort();
    assert_eq!(
        ign,
        paths(&["foo-1.a-1-x86_64.pkg.tar.zst", "foo-a.1-1-x86_64.pkg.tar.zst"])
    );
}

#[test]
fn sig_of_superseded_file_is_superseded() {
    let input = paths(&[
        "foo-1.0-1-x86_64.pkg.tar.zst",
        "foo-1.0-1-x86_64.pkg.tar.zst.sig",
        "foo-1.1-1-x86_64.pkg.tar.zst",
    ]);
    let out = plan_removals(&input, false, &Vec::new()).unwrap();
    let mut sup = out.superseded.clone();
    sup.sort();
    assert_eq!(
        sup,
        paths(&[
            "foo-1.0-1-x86_64.pkg.tar.zst",
            "foo-1.0-1-x86_64.pkg.tar.zst.sig",
        ])
    );
    assert_eq!(out.ignored, Vec::<String>::new());
}

#[test]
fn orphan_sig_is_ignored() {
    let input = paths(&["baz-1.0-1-x86_64.pkg.tar.zst.sig"]);
    let out = plan_removals(&input, false, &Vec::new()).unwrap();
    assert_eq!(out.superseded, Vec::<String>::new());
    assert_eq!(out.ignored, paths(&["baz-1.0-1-x86_64.pkg.tar.zst.sig"]));
    assert_eq!(kept_paths(&out), Vec::<String>::new());
}

#[test]
fn newer_version_refolds_older_ambiguities() {
    // the two tied files form a group; a strictly newer file then takes
    // over as best, the strictly older member is superseded, and the
    // member the comparator still cannot place stays ambiguous
    let input = paths(&[
        "foo-1.a-1-x86_64.pkg.tar.zst",
        "foo-a.1-1-x86_64.pkg.tar.zst",
        "foo-2.0-1-x86_64.pkg.tar.zst",
    ]);
    let res = classify_files(&input);
    assert_eq!(res.superseded, paths(&["foo-1.a-1-x86_64.pkg.tar.zst"]));
    assert_eq!(res.groups.len(), 1);
    let cands = sorted_candidates(res.groups.into_iter().next().unwrap());
    let cand_paths: Vec<String> = cands.iter().map(|p| p.path.clone()).collect();
    assert_eq!(
        cand_paths,
        paths(&["foo-a.1-1-x86_64.pkg.tar.zst", "foo-2.0-1-x86_64.pkg.tar.zst"])
    );
}

#[test]
fn duplicate_paths_are_folded_once() {
    let input = paths(&[
        "foo-1.0-1-x86_64.pkg.tar.zst",
        "foo-1.0-1-x86_64.pkg.tar.zst",
    ]);
    let out = plan_removals(&input, false, &Vec::new()).unwrap();
    assert_eq!(kept_paths(&out), paths(&["foo-1.0-1-x86_64.pkg.tar.zst"]));
    assert_eq!(out.superseded, Vec::<String>::new());
    assert_eq!(out.ignored, Vec::<String>::new());
}

#[test]
fn missing_decision_refuses_the_plan() {
    let input = paths(&[
        "foo-1.a-1-x86_64.pkg.tar.zst",
        "foo-a.1-1-x86_64.pkg.tar.zst",
    ]);
    assert!(plan_removals(&input, false, &Vec::new()).is_none());
    assert!(plan_removals(&input, false, &vec![AmbiguityDecision::Keep(5)]).is_none());
    assert!(plan_removals(&input, false, &vec![AmbiguityDecision::Reprompt]).is_none());
}

#[test]
fn candidate_sort_is_stable_for_equal_version_strings() {
    let input = paths(&[
        "rust-1.a-1-x86_64.pkg.tar.zst",
        "other/rust-1.a-1-x86_64.pkg.tar.zst",
    ]);
    let res = classify_files(&input);
    assert_eq!(res.groups.len(), 1);
    let cands = sorted_candidates(res.groups.into_iter().next().unwrap());
    let cand_paths: Vec<String> = cands.iter().map(|p| p.path.clone()).collect();
    // equal keys keep their fold order: the first-seen file stays first
    assert_eq!(
        cand_paths,
        paths(&[
            "rust-1.a-1-x86_64.pkg.tar.zst",
            "other/rust-1.a-1-x86_64.pkg.tar.zst",
        ])
    );
}

#[test]
fn empty_directory_plans_nothing() {
    let out = plan_removals(&Vec::new(), false, &Vec::new()).unwrap();
    assert_eq!(kept_paths(&out), Vec::<String>::new());
    assert_eq!(out.superseded, Vec::<String>::new());
    assert_eq!(out.ignored, Vec::<String>::new());
}

#[test]
fn interprets_interactive_input() {
    assert_eq!(interpret_choice("", 3), AmbiguityDecision::Keep(0));
    assert_eq!(interpret_choice("\n", 3), AmbiguityDecision::Keep(0));
    assert_eq!(interpret_choice("i\n", 3), AmbiguityDecision::IgnoreAll);
    assert_eq!(interpret_choice("i", 3), AmbiguityDecision::IgnoreAll);
    assert_eq!(interpret_choice("1\n", 3), AmbiguityDecision::Keep(1));
    assert_eq!(interpret_choice("2", 3), AmbiguityDecision::Keep(2));
    assert_eq!(interpret_choice("02\n", 3), AmbiguityDecision::Keep(2));
    assert_eq!(interpret_choice("3\n", 3), AmbiguityDecision::Reprompt);
    assert_eq!(interpret_choice("x\n", 3), AmbiguityDecision::Reprompt);
    assert_eq!(interpret_choice("1x\n", 3), AmbiguityDecision::Reprompt);
    assert_eq!(
        interpret_choice("99999999999999999999999999999\n", 3),
        AmbiguityDecision::Reprompt
    );
}

#[test]
fn recognizes_removal_confirmation() {
    assert!(removal_confirmed("y\n"));
    assert!(!removal_confirmed("y"));
    assert!(!removal_confirmed("n\n"));
    assert!(!removal_confirmed("yes\n"));
    assert!(!removal_confirmed(""));
}

#[test]
fn recognizes_signature_files() {
    assert!(is_sig_file("foo-1.0-1-x86_64.pkg.tar.zst.sig"));
    assert!(is_sig_file("/a/b/foo.sig"));
    assert!(!is_sig_file(".sig"));
    assert!(!is_sig_file("/a/b/.sig"));
    assert!(!is_sig_file("foo.signature"));
    assert!(!is_sig_file("foo.txt"));
}

#[test]
fn confirm_levels_are_ordered() {
    assert!(AutoConfirmLevel::Nothing.is_nothing());
    assert!(!AutoConfirmLevel::Nothing.is_at_least_removal());
    assert!(AutoConfirmLevel::Removal.is_at_least_removal());
    assert!(!AutoConfirmLevel::Removal.is_at_least_ambiguities());
    assert!(AutoConfirmLevel::Ambiguities.is_at_least_removal());
    assert!(AutoConfirmLevel::Ambiguities.is_at_least_ambiguities());
    assert!(!AutoConfirmLevel::Ambiguities.is_everything());
    assert!(AutoConfirmLevel::Everything.is_at_least_ambiguities());
    assert!(AutoConfirmLevel::Everything.is_everything());
}

#[test]
fn default_options_ask_on_ambiguities() {
    let opts = Options::default();
    assert_eq!(opts.auto_confirm_level, AutoConfirmLevel::Ambiguities);
    assert!(!opts.dry_run);
    assert_eq!(opts.dir, "");
    assert_eq!(AutoConfirmLevel::default(), AutoConfirmLevel::Ambiguities);
}

#[test]
fn rerun_over_survivors_keeps_everything() {
    let input = paths(&[
        "foo-1.0-1-x86_64.pkg.tar.zst",
        "foo-1.1-1-x86_64.pkg.tar.zst",
        "bar-2.0-1-x86_64.pkg.tar.zst",
    ]);
    let first = plan_removals(&input, false, &Vec::new()).unwrap();
    let survivors = kept_paths(&first);
    let second = plan_removals(&survivors, false, &Vec::new()).unwrap();
    assert_eq!(second.superseded, Vec::<String>::new());
    assert_eq!(second.ignored, Vec::<String>::new());
    let mut a = kept_paths(&second);
    let mut b = survivors.clone();
    a.sort();
    b.sort();
    assert_eq!(a, b);
}
