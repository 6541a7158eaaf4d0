use fs_capture::package::{parse_patterns, root_iterator_package, RootIteratorPackage};
use fs_capture::walker::{
    matches_path, path_names_root, path_under, phase2_descends, reserved_roots, root_iterator,
    skip_roots, str_eq, Platform,
};

fn strings(items: &[&str]) -> Vec<String> {
    items.iter().map(|s| s.to_string()).collect()
}

fn package(roots: &[&str], patterns: &[&str]) -> RootIteratorPackage {
    root_iterator_package(strings(roots), &strings(patterns)).unwrap()
}

#[test]
fn package_collects_roots_in_order() {
    let pkg = package(
        &["/"],
        &["/foo/bar/*", "/baz/**", "/foo/bar/*/x", "loose*", "/foo/bar/again/*"],
    );
    // duplicates by (path, flag) are dropped, encounter order kept; a pattern
    // without a derivable root contributes no pair
    assert_eq!(
        pkg.pattern_paths,
        vec![
            ("/foo/bar/".to_string(), false),
            ("/baz/".to_string(), true),
            ("/foo/bar/again/".to_string(), false),
        ]
    );
    assert_eq!(pkg.root_paths, vec!["/".to_string()]);
}

#[test]
fn package_rejects_bad_pattern() {
    let result = root_iterator_package(strings(&["/"]), &strings(&["/ok/*", "/bad/{unclosed"]));
    assert!(result.is_err());
}

#[test]
fn package_matcher_uses_literal_separators() {
    let pkg = package(&[], &["/foo/bar/*"]);
    assert!(matches_path(&pkg, "/foo/bar/x"));
    assert!(!matches_path(&pkg, "/foo/qux"));
    // `*` does not cross a path separator
    assert!(!matches_path(&pkg, "/foo/bar/a/b"));
}

#[test]
fn package_empty_patterns_match_nothing() {
    let pkg = package(&["/"], &[]);
    assert!(!matches_path(&pkg, "/anything"));
    assert!(pkg.pattern_paths.is_empty());
}

#[test]
fn parse_patterns_accepts_any_list() {
    parse_patterns(&strings(&["/a/*", "", "loose"]));
}

#[test]
fn skip_roots_are_fully_covered_roots() {
    let pkg = package(&[], &["/a/**", "/b/*", "/c/**/*"]);
    assert_eq!(skip_roots(&pkg), vec!["/a/".to_string(), "/c/".to_string()]);
}

#[test]
fn reserved_roots_per_platform() {
    assert_eq!(
        reserved_roots(Platform::Linux),
        vec!["/dev".to_string(), "/proc".to_string(), "/sys".to_string()]
    );
    assert_eq!(
        reserved_roots(Platform::Android),
        vec!["/dev".to_string(), "/proc".to_string(), "/sys".to_string()]
    );
    assert_eq!(reserved_roots(Platform::MacOs), vec!["/dev".to_string()]);
    assert_eq!(reserved_roots(Platform::Ios), vec!["/dev".to_string()]);
    assert_eq!(reserved_roots(Platform::Windows), Vec::<String>::new());
}

#[test]
fn path_relations() {
    assert!(path_under("/dev", "/dev"));
    assert!(path_under("/dev", "/dev/null"));
    assert!(!path_under("/dev", "/device"));
    assert!(path_under("/foo/bar/", "/foo/bar"));
    assert!(path_under("/foo/bar/", "/foo/bar/x/y"));
    assert!(!path_under("/foo/bar/", "/foo/barn"));
    assert!(path_under("/", "/anything/below"));
    assert!(path_names_root("/foo/bar/", "/foo/bar"));
    assert!(path_names_root("/foo/bar/", "/foo/bar/"));
    assert!(!path_names_root("/foo/bar/", "/foo/bar/x"));
    assert!(str_eq("abc", "abc"));
    assert!(!str_eq("abc", "abd"));
}

#[test]
fn descend_decision_stops_at_named_roots() {
    let reserved = strings(&["/dev", "/proc", "/sys"]);
    let skip = strings(&["/data/"]);
    assert!(!phase2_descends("/proc", &reserved, &skip));
    assert!(!phase2_descends("/data", &reserved, &skip));
    assert!(phase2_descends("/etc", &reserved, &skip));
}

#[test]
fn walker_emits_covered_file_once() {
    // a file reachable both under the fully covered pattern root and under
    // the base root comes out exactly once
    let pkg = package(&["/"], &["/data/**"]);
    let pattern_listings = vec![strings(&["/data", "/data/f.txt", "/data/sub/g.txt"])];
    let base_listings = vec![strings(&["/", "/data", "/data/f.txt", "/other.txt"])];
    let out = root_iterator(&pkg, Platform::Linux, &pattern_listings, &base_listings);
    let hits = out.iter().filter(|p| p.as_str() == "/data/f.txt").count();
    assert_eq!(hits, 1);
    // the fully covered root itself is pruned from the base phase
    assert_eq!(
        out,
        strings(&["/data/f.txt", "/data/sub/g.txt", "/", "/other.txt"])
    );
}

#[test]
fn walker_prunes_reserved_roots() {
    let pkg = package(&["/"], &[]);
    let base_listings = vec![strings(&[
        "/",
        "/proc",
        "/proc/1/stat",
        "/dev/null",
        "/sys",
        "/etc/hosts",
    ])];
    let out = root_iterator(&pkg, Platform::Linux, &vec![], &base_listings);
    assert_eq!(out, strings(&["/", "/etc/hosts"]));
}

#[test]
fn walker_reserved_roots_follow_platform() {
    let pkg = package(&["/"], &[]);
    let base_listings = vec![strings(&["/", "/proc/1/stat", "/dev/null"])];
    let out = root_iterator(&pkg, Platform::Windows, &vec![], &base_listings);
    // no reserved pseudo-filesystems on this platform
    assert_eq!(out, strings(&["/", "/proc/1/stat", "/dev/null"]));
}

#[test]
fn walker_whole_tree_pattern() {
    // pattern `**` derives root `/`, fully covered: the pattern phase yields
    // every entry, and the base phase yields nothing below `/`
    let pkg = package(&["/"], &["**"]);
    assert_eq!(pkg.pattern_paths, vec![("/".to_string(), true)]);
    let pattern_listings = vec![strings(&["/", "/a", "/a/b.txt"])];
    let base_listings = vec![strings(&["/", "/a", "/a/b.txt"])];
    let out = root_iterator(&pkg, Platform::Linux, &pattern_listings, &base_listings);
    assert_eq!(out, strings(&["/", "/a", "/a/b.txt"]));
}

#[test]
fn walker_filters_pattern_scoped_walk() {
    // pattern `/foo/bar/*/test` derives root `/foo/bar/`, not fully covered:
    // the walk below the root is filtered to the full pattern
    let pkg = package(&[], &["/foo/bar/*/test"]);
    assert_eq!(pkg.pattern_paths, vec![("/foo/bar/".to_string(), false)]);
    let pattern_listings = vec![strings(&[
        "/foo/bar",
        "/foo/bar/x",
        "/foo/bar/x/test",
        "/foo/bar/x/other",
        "/foo/bar/test",
    ])];
    let out = root_iterator(&pkg, Platform::Linux, &pattern_listings, &vec![]);
    assert_eq!(out, strings(&["/foo/bar/x/test"]));
}
