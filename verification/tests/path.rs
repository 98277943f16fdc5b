use std::path::Path;

use casp::path::{join, starts_with};

const PATHS: [&str; 30] = [
    "", "/", "//", ".", "./", "./.", "..", "/.", "/..", "a", "a/", "a//", "a/.", "a/./", "./a", ".//a", "/a", "//a",
    "/a/", "/a/b", "/a//b", "/a/./b", "/a/../b", "/ab", "a/b", "a/b/c", "/w/one", "/w/onemore", "/é/ü", ".a",
];

#[test]
fn prefixes_are_those_of_the_system() {
    for path in PATHS {
        for base in PATHS {
            assert_eq!(
                starts_with(path, base),
                Path::new(path).starts_with(base),
                "{path:?} within {base:?}"
            );
        }
    }
}

#[test]
fn joins_are_those_of_the_system() {
    for dir in PATHS {
        for rest in PATHS {
            let joined = Path::new(dir).join(rest);
            assert_eq!(join(dir, rest), joined.to_str().unwrap(), "{rest:?} from {dir:?}");
        }
    }
}

#[test]
fn a_longer_name_lies_outside() {
    assert!(starts_with("/w/one", "/w/one"));
    assert!(starts_with("/w/one/", "/w/one"));
    assert!(starts_with("/w/one/sub", "/w/one/"));
    assert!(!starts_with("/w/onemore", "/w/one"));
    assert!(!starts_with("/w", "/w/one"));
    assert!(!starts_with("w/one", "/w/one"));
}
