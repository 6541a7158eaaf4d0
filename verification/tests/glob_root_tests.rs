use fs_capture::glob_root::{is_recursive_match_all, root_parser};

#[test]
fn test_root_parser() {
    let input = "/foo/bar/*/test";
    let actual = root_parser(input);
    assert_eq!(Some(("/foo/bar/".to_string(), false)), actual);

    let input = "/foo/bar/**/test";
    let actual = root_parser(input);
    assert_eq!(Some(("/foo/bar/".to_string(), false)), actual);

    let input = "/foo/bar/test";
    let actual = root_parser(input);
    assert_eq!(Some(("/foo/bar/test".to_string(), false)), actual);

    let input = "hello";
    let actual = root_parser(input);
    assert_eq!(None, actual);

    let input = "ohhell*there";
    let actual = root_parser(input);
    assert_eq!(None, actual);

    let input = "/foo/bar/*/test/**/*";
    let actual = root_parser(input);
    assert_eq!(Some(("/foo/bar/".to_string(), false)), actual);

    let input = "/foo/bar/**";
    let actual = root_parser(input);
    assert_eq!(Some(("/foo/bar/".to_string(), true)), actual);

    let input = "/foo/bar/*";
    let actual = root_parser(input);
    assert_eq!(Some(("/foo/bar/".to_string(), false)), actual);

    let input = "/foo/bar/**/*";
    let actual = root_parser(input);
    assert_eq!(Some(("/foo/bar/".to_string(), true)), actual);

    let input = "/foo/bar/\\*";
    let actual = root_parser(input);
    assert_eq!(Some(("/foo/bar/*".to_string(), false)), actual);

    let input = "/foo/bar/\\*/hello";
    let actual = root_parser(input);
    assert_eq!(Some(("/foo/bar/*/hello".to_string(), false)), actual);

    let input = "**/*";
    let actual = root_parser(input);
    assert_eq!(Some(("/".to_string(), true)), actual);

    let input = "**";
    let actual = root_parser(input);
    assert_eq!(Some(("/".to_string(), true)), actual);

    let input = "";
    let actual = root_parser(input);
    assert_eq!(None, actual);
}

#[test]
fn root_parser_unescapes_before_break() {
    // an escaped metacharacter inside the literal prefix is unescaped in the
    // root, and the break is found after it
    let actual = root_parser("/a\\[b/c*");
    assert_eq!(Some(("/a[b/".to_string(), false)), actual);
}

#[test]
fn root_parser_trivial_whole_filesystem() {
    assert_eq!(Some(("/".to_string(), true)), root_parser("/**"));
    assert_eq!(Some(("/".to_string(), true)), root_parser("/**/*"));
}

#[test]
fn root_parser_metacharacter_before_separator() {
    // the first unescaped metacharacter comes before any separator is seen
    // after the leading one ends up with root `/`
    assert_eq!(Some(("/".to_string(), false)), root_parser("/*"));
}

#[test]
fn recursive_match_all_exact_forms() {
    assert!(is_recursive_match_all("**"));
    assert!(is_recursive_match_all("**/*"));
    assert!(!is_recursive_match_all("*"));
    assert!(!is_recursive_match_all("***"));
    assert!(!is_recursive_match_all("**/"));
    assert!(!is_recursive_match_all(""));
}

#[test]
fn root_parser_handles_multibyte_characters() {
    assert_eq!(Some(("/fóo/".to_string(), false)), root_parser("/fóo/*"));
    assert_eq!(Some(("/日本/語".to_string(), false)), root_parser("/日本/語"));
}
