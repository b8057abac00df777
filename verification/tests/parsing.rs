use remove_old_arch_pkgs::package::extract_name_version;
use remove_old_arch_pkgs::package::Package;
use remove_old_arch_pkgs::package::PackageParseError;
use remove_old_arch_pkgs::vercmp::ComparisonResult;

fn parse_ok(name: &str) -> (String, String) {
    extract_name_version(name).expect("expected the name to parse")
}

#[test]
fn splits_a_simple_name() {
    let (name, ver) = parse_ok("acpi-1.7-3-x86_64.pkg.tar.zst");
    assert_eq!(name, "acpi");
    assert_eq!(ver, "1.7-3");
}

#[test]
fn splits_right_anchored_with_hyphenated_name() {
    let (name, ver) = parse_ok("gtk-doc-1.33.2-1-x86_64.pkg.tar.zst");
    assert_eq!(name, "gtk-doc");
    assert_eq!(ver, "1.33.2-1");
}

#[test]
fn splits_xz_archive() {
    let (name, ver) = parse_ok("linux-5.3.arch1-1-x86_64.pkg.tar.xz");
    assert_eq!(name, "linux");
    assert_eq!(ver, "5.3.arch1-1");
}

#[test]
fn splits_version_with_plus_signs() {
    let (name, ver) = parse_ok("zeitgeist-1.0+1+g1bcc8585-1-x86_64.pkg.tar.xz");
    assert_eq!(name, "zeitgeist");
    assert_eq!(ver, "1.0+1+g1bcc8585-1");
}

#[test]
fn round_trip_reassembles_the_stem() {
    let full = "gtk-doc-1.33.2-1-x86_64.pkg.tar.zst";
    let (name, ver) = parse_ok(full);
    let stem = format!("{}-{}", name, ver);
    assert!(full.starts_with(&stem));
    assert_eq!(&full[stem.len()..], "-x86_64.pkg.tar.zst");
}

#[test]
fn rejects_names_without_enough_tokens() {
    let err = extract_name_version("bar.txt").unwrap_err();
    assert_eq!(err.0, PackageParseError::NoPackageName);
    assert_eq!(err.1, "bar.txt");
}

#[test]
fn rejects_wrong_extension() {
    let err = extract_name_version("foo-1.0-1-x86_64.tar.zst").unwrap_err();
    assert_eq!(err.0, PackageParseError::NoPackageName);
    let err = extract_name_version("foo-1.0-1-x86_64.pkg.zip.zst").unwrap_err();
    assert_eq!(err.0, PackageParseError::NoPackageName);
}

#[test]
fn rejects_empty_version_tokens() {
    assert!(extract_name_version("foo--1-x86_64.pkg.tar.zst").is_err());
    assert!(extract_name_version("foo-1.0--x86_64.pkg.tar.zst").is_err());
}

#[test]
fn from_path_keeps_the_full_path() {
    let pkg = Package::from_path("/mnt/archlinux/linux-5.3.arch1-1-x86_64.pkg.tar.xz").unwrap();
    assert_eq!(pkg.path, "/mnt/archlinux/linux-5.3.arch1-1-x86_64.pkg.tar.xz");
    assert_eq!(pkg.name, "linux");
    assert_eq!(pkg.pkgverstr, "5.3.arch1-1");
}

#[test]
fn from_path_rejects_paths_without_file_name() {
    let err = Package::from_path("").unwrap_err();
    assert_eq!(err.0, PackageParseError::EmptyPathOrRoot);
    let err = Package::from_path("/mnt/archlinux/").unwrap_err();
    assert_eq!(err.0, PackageParseError::EmptyPathOrRoot);
}

#[test]
fn from_path_rejects_unreadable_version() {
    // every segment of the version-string is text, so the comparator's
    // parser refuses it
    let err = Package::from_path("foo-abc-def-x86_64.pkg.tar.zst").unwrap_err();
    match err.0 {
        PackageParseError::CouldntParsePkgver(v) => assert_eq!(v, "abc-def"),
        other => panic!("expected CouldntParsePkgver, got {:?}", other),
    }
}

#[test]
fn comparator_orders_plain_versions() {
    let a = Package::from_path("foo-1.0-1-x86_64.pkg.tar.zst").unwrap();
    let b = Package::from_path("foo-1.1-1-x86_64.pkg.tar.zst").unwrap();
    assert_eq!(Package::compare_versions(&a, &b), ComparisonResult::Less);
    assert_eq!(Package::compare_versions(&b, &a), ComparisonResult::Greater);
}

#[test]
fn comparator_is_reflexive() {
    let a = Package::from_path("foo-1.2.3-1-x86_64.pkg.tar.zst").unwrap();
    let b = Package::from_path("foo-1.2.3-1-x86_64.pkg.tar.zst").unwrap();
    assert_eq!(Package::compare_versions(&a, &b), ComparisonResult::Equal);
}

#[test]
fn comparator_sees_through_segmenting() {
    // a trailing zero segment does not make a version newer
    let a = Package::from_path("foo-1.0-0-x86_64.pkg.tar.zst").unwrap();
    let b = Package::from_path("foo-1-0-x86_64.pkg.tar.zst").unwrap();
    assert_eq!(Package::compare_versions(&a, &b), ComparisonResult::Equal);
    // the whole `<version>-<release>` token is segmented: the release digit
    // is one more segment of the comparison
    let c = Package::from_path("foo-1.0-1-x86_64.pkg.tar.zst").unwrap();
    let d = Package::from_path("foo-1.0.0-1-x86_64.pkg.tar.zst").unwrap();
    assert_eq!(Package::compare_versions(&c, &d), ComparisonResult::Greater);
}

#[test]
fn comparator_degrades_unordered_pairs_to_equal() {
    // mixed numeric/text segments in both orders: the backend cannot
    // strictly order these two, and the policy reports a tie
    let a = Package::from_path("foo-1.a-1-x86_64.pkg.tar.zst").unwrap();
    let b = Package::from_path("foo-a.1-1-x86_64.pkg.tar.zst").unwrap();
    assert_eq!(Package::compare_versions(&a, &b), ComparisonResult::Equal);
    assert_eq!(Package::compare_versions(&b, &a), ComparisonResult::Equal);
}
