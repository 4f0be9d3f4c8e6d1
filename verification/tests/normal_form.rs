use backend::normal_form::normal_form;
use backend::unix_path::UnixPath;
use std::path::Path;

const SAMPLES: &[&str] = &[
    "", "/", "//", ".", "..", "./", "../", "a", "a/", "a//", "a/.", "a/./", "/a", "/a/", "./a",
    "./a/", "a/b", "a/b/", "a//b", "a/./b", "a/b/.", "a/b/..", "../a", "/..", "/.", ".a", "./.",
    "a/../b", "././a", "/./a", "x/..disabled",
];

#[test]
fn normal_forms_equal_exactly_when_paths_equal() {
    for a in SAMPLES {
        for b in SAMPLES {
            let same_form = normal_form(&UnixPath::new(a)) == normal_form(&UnixPath::new(b));
            assert_eq!(same_form, Path::new(a) == Path::new(b), "{:?} {:?}", a, b);
        }
    }
}

#[test]
fn normal_form_examples() {
    let cases = [
        ("a//b/", "a/b"),
        ("./a/./b/.", "./a/b"),
        ("/../x", "/../x"),
        ("", ""),
        ("./", "."),
        ("//", "/"),
        ("a/b/..", "a/b/.."),
    ];
    for (p, want) in cases {
        assert_eq!(normal_form(&UnixPath::new(p)), want, "{:?}", p);
    }
}
