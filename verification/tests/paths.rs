use backend::names::{is_single_component_path, is_single_component_path_str, trim_ascii_str};
use backend::unix_path::{PathComponent, UnixPath};
use std::path::{Component, Path, PathBuf};

const SAMPLES: &[&str] = &[
    "", "/", "//", ".", "..", "./", "../", "a", "a/", "a//", "a/.", "a/./", "/a", "/a/", "./a",
    "./a/", "a/b", "a/b/", "a//b", "a/./b", "a/b/.", "a/b/..", "../a", "/..", "/.", ".a",
    "a.", "a.b", "a.b.c", ".a.b", "..a", "...", "a/.b", "dir/file.tar.gz", "/x/y/z.jar",
    "./.", "a/../b", "mods/sodium.jar.disabled", "é/ü.txt",
];

fn std_components(s: &str) -> Vec<String> {
    Path::new(s)
        .components()
        .map(|c| match c {
            Component::RootDir => "<root>".to_string(),
            Component::CurDir => "<cur>".to_string(),
            Component::ParentDir => "<parent>".to_string(),
            Component::Normal(n) => n.to_str().unwrap().to_string(),
            Component::Prefix(_) => "<prefix>".to_string(),
        })
        .collect()
}

fn our_components(s: &str) -> Vec<String> {
    UnixPath::new(s)
        .components()
        .into_iter()
        .map(|c| match c {
            PathComponent::RootDir => "<root>".to_string(),
            PathComponent::CurDir => "<cur>".to_string(),
            PathComponent::ParentDir => "<parent>".to_string(),
            PathComponent::Normal(n) => n,
        })
        .collect()
}

#[test]
fn components_agree_with_std() {
    for s in SAMPLES {
        assert_eq!(our_components(s), std_components(s), "components of {:?}", s);
    }
}

#[test]
fn file_name_parent_extension_agree_with_std() {
    for s in SAMPLES {
        let p = UnixPath::new(s);
        let std_p = Path::new(s);
        assert_eq!(
            p.file_name(),
            std_p.file_name().map(|n| n.to_str().unwrap().to_string()),
            "file_name of {:?}",
            s
        );
        assert_eq!(
            p.parent().map(|q| q.as_string()),
            std_p.parent().map(|q| q.to_str().unwrap().to_string()),
            "parent of {:?}",
            s
        );
        assert_eq!(
            p.extension(),
            std_p.extension().map(|n| n.to_str().unwrap().to_string()),
            "extension of {:?}",
            s
        );
        assert_eq!(p.has_root(), std_p.has_root(), "has_root of {:?}", s);
    }
}

#[test]
fn push_pop_set_agree_with_std() {
    for s in SAMPLES {
        for t in ["x", "", "y/z", "/abs", ".hidden"] {
            let mut ours = UnixPath::new(s);
            ours.push(&UnixPath::new(t));
            let mut theirs = PathBuf::from(s);
            theirs.push(t);
            assert_eq!(ours.as_string(), theirs.to_str().unwrap(), "push {:?} onto {:?}", t, s);

            let joined = UnixPath::new(s).join(&UnixPath::new(t));
            assert_eq!(joined.as_string(), Path::new(s).join(t).to_str().unwrap());

            let mut ours = UnixPath::new(s);
            ours.set_file_name(t);
            let mut theirs = PathBuf::from(s);
            theirs.set_file_name(t);
            assert_eq!(ours.as_string(), theirs.to_str().unwrap(), "set_file_name {:?} on {:?}", t, s);
        }
        for e in ["", "x", "tar.gz", "disabled"] {
            let mut ours = UnixPath::new(s);
            let r = ours.set_extension(e);
            let mut theirs = PathBuf::from(s);
            let r2 = theirs.set_extension(e);
            assert_eq!(r, r2);
            assert_eq!(ours.as_string(), theirs.to_str().unwrap(), "set_extension {:?} on {:?}", e, s);
        }
        let mut ours = UnixPath::new(s);
        let r = ours.pop();
        let mut theirs = PathBuf::from(s);
        let r2 = theirs.pop();
        assert_eq!(r, r2);
        assert_eq!(ours.as_string(), theirs.to_str().unwrap(), "pop {:?}", s);
    }
}

#[test]
fn add_extension_examples() {
    let cases = [
        ("a/b", "aux", "a/b.aux", true),
        ("a/b.c", "aux", "a/b.c.aux", true),
        ("a/b/", "aux", "a/b.aux", true),
        ("a/b/.", "aux", "a/b.aux", true),
        ("a/b", "", "a/b", true),
        ("/", "aux", "/", false),
        ("", "aux", "", false),
        ("a/..", "aux", "a/..", false),
        (".hidden", "json", ".hidden.json", true),
    ];
    for (s, e, want, ok) in cases {
        let mut p = UnixPath::new(s);
        assert_eq!(p.add_extension(e), ok, "add_extension {:?} to {:?}", e, s);
        assert_eq!(p.as_string(), want, "add_extension {:?} to {:?}", e, s);
    }
}

#[test]
fn single_component_paths() {
    let yes = ["foo", "foo/", "foo//", "foo/.", "foo/./", "sodium.jar", ".hidden", "..."];
    let no = ["", "/", ".", "..", "./foo", "/foo", "a/b", "foo/..", "../foo", "a/./b", "//"];
    for s in yes {
        assert!(is_single_component_path_str(s), "{:?}", s);
        assert!(is_single_component_path(&UnixPath::new(s)), "{:?}", s);
    }
    for s in no {
        assert!(!is_single_component_path_str(s), "{:?}", s);
    }
}

#[test]
fn single_component_stays_in_dir() {
    for dir in ["", "/", ".", "a", "a/b", "/srv/instances"] {
        for s in ["foo", "foo/", "foo/.", "bar.jar"] {
            assert!(is_single_component_path_str(s));
            let joined = UnixPath::new(dir).join(&UnixPath::new(s));
            assert_eq!(joined.parent().map(|p| p.as_string()), Some(dir.to_string()));
            let name = s.split('/').next().unwrap().to_string();
            assert_eq!(joined.file_name(), Some(name));
        }
    }
}

#[test]
fn trim_ascii_whitespace() {
    let t: String = trim_ascii_str(" \t sodium \r\n\x0c").into_iter().collect();
    assert_eq!(t, "sodium");
    let t: String = trim_ascii_str("\x0b a \x0b").into_iter().collect();
    assert_eq!(t, "\x0b a \x0b".trim_ascii());
    assert!(trim_ascii_str(" \n\t ").is_empty());
    let t: String = trim_ascii_str("a b").into_iter().collect();
    assert_eq!(t, "a b");
}

#[test]
fn single_component_joins_any_dir() {
    for dir in ["", "/", ".", "./", "a", "a/", "a//", "a/.", "/srv/x/./", "//"] {
        for s in ["foo", "foo/", "foo/.", "bar.jar"] {
            let joined = UnixPath::new(dir).join(&UnixPath::new(s));
            let parent = joined.parent().unwrap().as_string();
            assert_eq!(Path::new(&parent), Path::new(dir), "{:?} {:?}", dir, s);
            let mut want = std_components(dir);
            want.push(s.split('/').next().unwrap().to_string());
            assert_eq!(our_components(&joined.as_string()), want);
        }
    }
}
