//! Paths as text, held against the standard library's.

use std::path::Path;

use symposium::paths::{parent, parts_of, standing, Standing};

const PATHS: [&str; 34] = [
    "", "/", "//", ".", "./", "..", "../", "a", "a/", "a//", "/a", "/a/", "//a", "a/b", "a//b",
    "a/./b", "a/b/.", "a/b/./", "./a", "./.", "././a", "/.", "/./a", "/..", "../a", ".a", ".a/b",
    "a.", "a/..", "..a/b", "é/日", "a/ ", " ", "/reg/pdf/skills/x/SKILL.md",
];

#[test]
fn parents_are_the_standard_ones() {
    for path in PATHS {
        let expected = Path::new(path)
            .parent()
            .map(|p| p.to_str().expect("utf-8").to_string());
        assert_eq!(parent(path), expected, "{path:?}");
    }
}

#[test]
fn parts_are_the_standard_components() {
    for path in PATHS {
        let expected: Vec<String> = Path::new(path)
            .components()
            .map(|c| c.as_os_str().to_str().expect("utf-8").to_string())
            .collect();
        assert_eq!(parts_of(path), expected, "{path:?}");
    }
}

#[test]
fn paths_are_ordered_as_the_standard_library_orders_them() {
    for a in PATHS {
        for b in PATHS {
            let expected = match Path::new(a).cmp(Path::new(b)) {
                std::cmp::Ordering::Less => Standing::Before,
                std::cmp::Ordering::Equal => Standing::Same,
                std::cmp::Ordering::Greater => Standing::After,
            };
            assert_eq!(standing(a, b), expected, "{a:?} {b:?}");
        }
    }
}
