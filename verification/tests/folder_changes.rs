use backend::folder_changes::FolderChanges;
use backend::unix_path::UnixPath;
use rustc_hash::FxHashSet;

fn set(items: &[&str]) -> FxHashSet<String> {
    items.iter().map(|s| s.to_string()).collect()
}

#[test]
fn fresh_changes() {
    assert!(FolderChanges::no_changes().is_empty());
    assert!(!FolderChanges::all_dirty().is_empty());
}

#[test]
fn dirty_paths_are_taken() {
    let mut c = FolderChanges::no_changes();
    c.dirty_path(&UnixPath::new("mods/a.jar"));
    c.dirty_path(&UnixPath::new("mods/b.jar"));
    c.dirty_path(&UnixPath::new("mods/a.jar"));
    assert!(!c.is_empty());
    let (all, paths) = c.take();
    assert!(!all);
    assert_eq!(paths, set(&["mods/a.jar", "mods/b.jar"]));
    assert!(c.is_empty());
    let (all, paths) = c.take();
    assert!(!all && paths.is_empty());
}

#[test]
fn all_dirty_absorbs_paths() {
    let mut c = FolderChanges::no_changes();
    c.dirty_path(&UnixPath::new("x"));
    c.dirty_all();
    c.dirty_path(&UnixPath::new("y"));
    let (all, paths) = c.take();
    assert!(all);
    assert!(paths.is_empty());
    assert!(c.is_empty());
}

#[test]
fn apply_merges() {
    let mut a = FolderChanges::no_changes();
    a.dirty_path(&UnixPath::new("a"));
    let mut b = FolderChanges::no_changes();
    b.dirty_path(&UnixPath::new("b"));
    a.apply_to(&mut b);
    let (all, paths) = b.take();
    assert!(!all);
    assert_eq!(paths, set(&["a", "b"]));

    let mut b = FolderChanges::no_changes();
    b.dirty_path(&UnixPath::new("b"));
    FolderChanges::all_dirty().apply_to(&mut b);
    let (all, paths) = b.take();
    assert!(all && paths.is_empty());

    let mut b = FolderChanges::all_dirty();
    let mut a = FolderChanges::no_changes();
    a.dirty_path(&UnixPath::new("a"));
    a.apply_to(&mut b);
    let (all, paths) = b.take();
    assert!(all && paths.is_empty());
}

#[test]
fn apply_commutes() {
    let make = |items: &[&str]| {
        let mut c = FolderChanges::no_changes();
        for i in items {
            c.dirty_path(&UnixPath::new(i));
        }
        c
    };
    let mut x = make(&["1", "2"]);
    make(&["2", "3"]).apply_to(&mut x);
    let mut y = make(&["2", "3"]);
    make(&["1", "2"]).apply_to(&mut y);
    assert_eq!(x.take(), y.take());
}

#[test]
fn no_changes_is_neutral() {
    let mut x = FolderChanges::no_changes();
    x.dirty_path(&UnixPath::new("p"));
    FolderChanges::no_changes().apply_to(&mut x);
    assert_eq!(x.take(), (false, set(&["p"])));
}

fn changes(items: &[&str]) -> FolderChanges {
    let mut c = FolderChanges::no_changes();
    for i in items {
        c.dirty_path(&UnixPath::new(i));
    }
    c
}

#[test]
fn apply_associates() {
    // a applied to (b applied to c)
    let mut c1 = changes(&["c"]);
    changes(&["b"]).apply_to(&mut c1);
    changes(&["a"]).apply_to(&mut c1);
    // (a applied to b) applied to c
    let mut ab = changes(&["b"]);
    changes(&["a"]).apply_to(&mut ab);
    let mut c2 = changes(&["c"]);
    ab.apply_to(&mut c2);
    assert_eq!(c1.take(), c2.take());
}

#[test]
fn apply_idempotent() {
    let mut x = changes(&["p", "q"]);
    changes(&["p", "q"]).apply_to(&mut x);
    assert_eq!(x.take(), (false, set(&["p", "q"])));
    let mut y = FolderChanges::all_dirty();
    FolderChanges::all_dirty().apply_to(&mut y);
    assert_eq!(y.take(), (true, set(&[])));
}

#[test]
fn equal_paths_are_one_change() {
    let mut c = FolderChanges::no_changes();
    for p in ["mods/a.jar", "mods/a.jar/", "mods//a.jar", "mods/./a.jar", "mods/a.jar/."] {
        c.dirty_path(&UnixPath::new(p));
    }
    c.dirty_path(&UnixPath::new("./mods/a.jar"));
    c.dirty_path(&UnixPath::new("/mods/a.jar"));
    let (all, paths) = c.take();
    assert!(!all);
    assert_eq!(paths, set(&["mods/a.jar", "./mods/a.jar", "/mods/a.jar"]));
}

#[test]
fn first_recorded_path_is_kept() {
    let mut c = FolderChanges::no_changes();
    c.dirty_path(&UnixPath::new("a/./b/"));
    c.dirty_path(&UnixPath::new("a/b"));
    assert_eq!(c.take(), (false, set(&["a/./b/"])));

    // the changes applied to keep their own path only for new changes
    let mut other = changes(&["x/", "y"]);
    changes(&["x", "z//"]).apply_to(&mut other);
    assert_eq!(other.take(), (false, set(&["x/", "y", "z//"])));
}

#[test]
fn apply_equals_replaying_dirty_path() {
    let applied = changes(&["p/", "q"]);
    let mut replayed = changes(&["p", "r"]);
    let mut merged = changes(&["p", "r"]);
    applied.apply_to(&mut merged);
    for s in ["q", "p/"] {
        replayed.dirty_path(&UnixPath::new(s));
    }
    assert_eq!(merged.take(), replayed.take());
}
