use backend::aux_path::{
    pandora_aux_path, pandora_aux_path_for_content, ContentSummary, InstanceContentSummary,
};
use backend::hashing::{check_sha1_hash, hash_matches};
use backend::library::create_content_library_path;
use backend::mods_page::{mod_install_files, sort_dropdown_row};
use backend::safe_write::{
    decimal_chars, random_write_safe_temp_path, write_safe_temp_path, WriteSafe, WriteSafeAction,
    WriteSafeStage,
};
use backend::unix_path::UnixPath;

fn aux(id: Option<&str>, name: Option<&str>, path: &str) -> Option<String> {
    pandora_aux_path(
        &id.map(|s| s.to_string()),
        &name.map(|s| s.to_string()),
        &UnixPath::new(path),
    )
    .map(|p| p.as_string())
}

#[test]
fn aux_path_for_labelled_content() {
    assert_eq!(
        aux(Some("sodium"), None, "mods/sodium-0.5.jar").as_deref(),
        Some("mods/.sodium.aux.json")
    );
    assert_eq!(aux(None, Some("Sodium"), "/i/mods/s.jar").as_deref(), Some("/i/mods/.Sodium.aux.json"));
    assert_eq!(aux(Some(" \tsodium\n "), None, "mods/s.jar").as_deref(), Some("mods/.sodium.aux.json"));
    assert_eq!(aux(Some("x"), None, "s.jar").as_deref(), Some(".x.aux.json"));
}

#[test]
fn aux_path_id_takes_precedence() {
    assert_eq!(aux(Some("a"), Some("b"), "mods/m.jar"), aux(Some("a"), Some("c"), "mods/m.jar"));
    assert_eq!(aux(Some("a"), Some("b"), "mods/m.jar").as_deref(), Some("mods/.a.aux.json"));
}

#[test]
fn aux_path_blank_id_uses_file_name() {
    // a blank id still wins over the name, and then the file name is used
    assert_eq!(aux(Some("  "), Some("b"), "mods/m.jar").as_deref(), Some("mods/.m.jar.aux.json"));
    assert_eq!(aux(None, Some(""), "mods/m.jar").as_deref(), Some("mods/.m.jar.aux.json"));
}

#[test]
fn aux_path_for_unlabelled_content() {
    assert_eq!(aux(None, None, "mods/m.jar").as_deref(), Some("mods/.m.jar.aux.json"));
    assert_eq!(aux(None, None, "mods/m.jar.disabled").as_deref(), Some("mods/.m.jar.aux.json"));
    assert_eq!(aux(None, None, "m").as_deref(), Some(".m.aux.json"));
    assert_eq!(aux(None, None, "mods/m.zip/").as_deref(), Some("mods/.m.zip.aux.json"));
    assert_eq!(aux(None, None, "mods/.disabled").as_deref(), Some("mods/..disabled.aux.json"));
}

#[test]
fn aux_path_disabled_keeps_aux() {
    for p in ["mods/m.jar", "m", "a/b/c.zip", "/x/.hidden", "x/."] {
        let disabled = format!("{}.disabled", p);
        assert_eq!(aux(None, None, &disabled), aux(None, None, p), "{}", p);
    }
}

#[test]
fn aux_path_missing() {
    assert_eq!(aux(Some("x"), None, ""), None);
    assert_eq!(aux(Some("x"), None, "/"), None);
    assert_eq!(aux(None, None, "/"), None);
    assert_eq!(aux(None, None, ""), None);
    assert_eq!(aux(None, None, "mods/.."), None);
}

#[test]
fn aux_path_for_content_reads_summary() {
    let content = InstanceContentSummary {
        content_summary: ContentSummary { id: Some("lithium".to_string()), name: None },
        path: UnixPath::new("/inst/mods/lithium.jar"),
    };
    assert_eq!(
        pandora_aux_path_for_content(&content).map(|p| p.as_string()).as_deref(),
        Some("/inst/mods/.lithium.aux.json")
    );
}

fn sample_hash() -> [u8; 20] {
    let mut h = [0u8; 20];
    for (i, b) in h.iter_mut().enumerate() {
        *b = (i as u8) * 13 + 0xa0;
    }
    h
}

#[test]
fn content_library_layout() {
    let h = sample_hash();
    let hex: String = h.iter().map(|b| format!("{:02x}", b)).collect();
    let dir = UnixPath::new("/data/library");
    let p = create_content_library_path(&dir, h, Some("jar"));
    assert_eq!(p.as_string(), format!("/data/library/{}/{}.jar", &hex[..2], hex));
    let p = create_content_library_path(&dir, h, None);
    assert_eq!(p.as_string(), format!("/data/library/{}/{}", &hex[..2], hex));
    let p = create_content_library_path(&UnixPath::new("lib/"), h, Some(""));
    assert_eq!(p.as_string(), format!("lib/{}/{}", &hex[..2], hex));
    let p = create_content_library_path(&UnixPath::new(""), [0u8; 20], Some("tar.gz"));
    assert_eq!(p.as_string(), format!("00/{}.tar.gz", "0".repeat(40)));
}

#[test]
fn sha1_check() {
    // SHA-1("abc")
    let digest: [u8; 20] = [
        0xa9, 0x99, 0x3e, 0x36, 0x47, 0x06, 0x81, 0x6a, 0xba, 0x3e, 0x25, 0x71, 0x78, 0x50, 0xc2,
        0x6c, 0x9c, 0xd0, 0xd8, 0x9d,
    ];
    assert!(check_sha1_hash(b"abc", digest));
    assert!(!check_sha1_hash(b"abd", digest));
    let mut other = digest;
    other[19] ^= 1;
    assert!(!check_sha1_hash(b"abc", other));
    assert!(hash_matches(&digest, &digest));
    assert!(!hash_matches(&digest, &other));
}

#[test]
fn decimal_digits() {
    for n in [0u32, 7, 10, 42, 1000, u32::MAX] {
        let s: String = decimal_chars(n).into_iter().collect();
        assert_eq!(s, n.to_string());
    }
}

#[test]
fn temp_path_is_sibling() {
    let t = write_safe_temp_path(&UnixPath::new("cfg/launcher.json"), 42);
    assert_eq!(t.as_string(), "cfg/launcher.json.42.new");
    assert_eq!(t.parent().map(|p| p.as_string()).as_deref(), Some("cfg"));
    let t = write_safe_temp_path(&UnixPath::new("cfg/dir/"), 7);
    assert_eq!(t.as_string(), "cfg/dir.7.new");
    let t = write_safe_temp_path(&UnixPath::new("/"), 7);
    assert_eq!(t.as_string(), "/");
    let r = random_write_safe_temp_path(&UnixPath::new("a/b"));
    let s = r.as_string();
    assert!(s.starts_with("a/b.") && s.ends_with(".new"));
    let digits = &s["a/b.".len()..s.len() - ".new".len()];
    assert!(digits.parse::<u32>().is_ok());
}

fn run(w: &mut WriteSafe, outcomes: &[bool]) -> Vec<String> {
    let mut out = Vec::new();
    let mut ok = true;
    let mut i = 0;
    while w.stage != WriteSafeStage::Done {
        let a = w.step(ok);
        out.push(match a {
            WriteSafeAction::CreateDirAll(p) => format!("mkdir {}", p.as_string()),
            WriteSafeAction::CreateTemp(p) => format!("create {}", p.as_string()),
            WriteSafeAction::WriteAll => "write".to_string(),
            WriteSafeAction::Flush => "flush".to_string(),
            WriteSafeAction::SyncAll => "sync".to_string(),
            WriteSafeAction::Rename { from, to } => {
                format!("rename {} {}", from.as_string(), to.as_string())
            }
            WriteSafeAction::RemoveTemp(p) => format!("remove {}", p.as_string()),
            WriteSafeAction::Finish(b) => format!("finish {}", b),
        });
        ok = outcomes.get(i).copied().unwrap_or(true);
        i += 1;
    }
    out
}

#[test]
fn write_safe_all_ok() {
    let mut w = WriteSafe::with_nonce(&UnixPath::new("cfg/a.json"), 5);
    assert_eq!(
        run(&mut w, &[]),
        vec![
            "mkdir cfg",
            "create cfg/a.json.5.new",
            "write",
            "flush",
            "sync",
            "rename cfg/a.json.5.new cfg/a.json",
            "finish true"
        ]
    );
}

#[test]
fn write_safe_rename_failure_removes_temp() {
    let mut w = WriteSafe::with_nonce(&UnixPath::new("cfg/a.json"), 5);
    let steps = run(&mut w, &[false, true, true, true, true, false, true]);
    assert_eq!(
        steps,
        vec![
            "mkdir cfg",
            "create cfg/a.json.5.new",
            "write",
            "flush",
            "sync",
            "rename cfg/a.json.5.new cfg/a.json",
            "remove cfg/a.json.5.new",
            "finish false"
        ]
    );
}

#[test]
fn write_safe_write_failure_stops() {
    let mut w = WriteSafe::with_nonce(&UnixPath::new("a.json"), 1);
    let steps = run(&mut w, &[true, true, false]);
    assert_eq!(steps, vec!["mkdir ", "create a.json.1.new", "write", "finish false"]);
    let mut w = WriteSafe::new(&UnixPath::new("/"));
    let steps = run(&mut w, &[false]);
    assert_eq!(steps, vec!["create /", "finish false"]);
}

#[test]
fn mods_install_targets() {
    let paths = vec![
        UnixPath::new("/home/u/Downloads/sodium.jar"),
        UnixPath::new("/"),
        UnixPath::new("relative/iris.jar"),
        UnixPath::new("x/.."),
    ];
    let files = mod_install_files(&paths);
    let got: Vec<(String, String)> =
        files.iter().map(|f| (f.target.as_string(), f.source.as_string())).collect();
    assert_eq!(
        got,
        vec![
            ("mods/sodium.jar".to_string(), "/home/u/Downloads/sodium.jar".to_string()),
            ("mods/iris.jar".to_string(), "relative/iris.jar".to_string()),
        ]
    );
}

#[test]
fn sort_dropdown_rows() {
    assert_eq!(sort_dropdown_row(&vec![3, 1, 4, 1], 1), 1);
    assert_eq!(sort_dropdown_row(&vec![3, 1, 4, 1], 4), 2);
    assert_eq!(sort_dropdown_row(&vec![3, 1, 4, 1], 9), 0);
    assert_eq!(sort_dropdown_row(&vec![], 9), 0);
}

#[test]
fn aux_file_is_sibling() {
    for (id, path) in [(Some("x"), "mods/a.jar"), (None, "mods/a.jar"), (None, "/i/m/b.zip/"), (None, "mods/c.jar.disabled")] {
        let a = pandora_aux_path(&id.map(|s| s.to_string()), &None, &UnixPath::new(path)).unwrap();
        let parent = UnixPath::new(path).parent().unwrap();
        assert_eq!(a.parent().map(|p| p.as_string()), Some(parent.as_string()), "{}", path);
    }
    // the enabled form of `x/..disabled` is `x/.`, whose parent is ""
    let a = pandora_aux_path(&None, &None, &UnixPath::new("x/..disabled")).unwrap();
    assert_eq!(a.as_string(), ".x.aux.json");
}

#[test]
fn distinct_hashes_distinct_paths() {
    let dir = UnixPath::new("lib");
    let mut seen = std::collections::HashSet::new();
    for i in 0..=255u8 {
        let mut h = [0u8; 20];
        h[i as usize % 20] = i;
        h[19] ^= i.rotate_left(3);
        let p = create_content_library_path(&dir, h, Some("jar")).as_string();
        assert!(seen.insert((h, p.clone())) && seen.iter().filter(|(_, q)| *q == p).count() == 1);
    }
}

#[test]
fn disabled_keeps_labelled_aux() {
    for p in ["mods/m.jar", "m", "/x/.hidden"] {
        let disabled = format!("{}.disabled", p);
        assert_eq!(aux(Some("lbl"), None, &disabled), aux(Some("lbl"), None, p), "{}", p);
    }
    // a path that does not end in its file name
    assert_ne!(aux(Some("lbl"), None, "x/..disabled"), aux(Some("lbl"), None, "x/."));
}
