//! The decisions of an instance's mods page: which files to install when
//! files are chosen or dropped, and which sort order the dropdown shows.
use crate::unix_path::{lemma_push_name, spec_file_name, spec_push, UnixPath};
use vstd::prelude::*;

verus! {

/// A mod file to install: copied from `source` to `target`, a path within
/// the instance.
pub struct ModInstallFile {
    pub target: UnixPath,
    pub source: UnixPath,
}

pub open spec fn mods_dir() -> Seq<char> {
    seq!['m', 'o', 'd', 's']
}

/// One install for each chosen path that has a file name, in order: the
/// file goes to `mods/{file name}`.
pub open spec fn spec_mod_install_files(paths: Seq<Seq<char>>) -> Seq<(Seq<char>, Seq<char>)>
    decreases paths.len(),
{
    if paths.len() == 0 {
        Seq::empty()
    } else {
        let rest = spec_mod_install_files(paths.drop_last());
        match spec_file_name(paths.last()) {
            Some(f) => rest.push((spec_push(mods_dir(), f), paths.last())),
            None => rest,
        }
    }
}

/// Whether a chosen path names a file (has a last component), and so is
/// installed.
pub open spec fn names_a_file(p: Seq<char>) -> bool {
    spec_file_name(p) is Some
}

/// `names_a_file` as a predicate to filter by.
pub open spec fn named_paths() -> spec_fn(Seq<char>) -> bool {
    |p: Seq<char>| names_a_file(p)
}

/// Every chosen path that has a file name is installed, as
/// `mods/{file name}`: none is dropped, the last one included.
pub proof fn law_mod_install_every_named_path(paths: Seq<Seq<char>>, i: int)
    requires
        0 <= i < paths.len(),
        spec_file_name(paths[i]) is Some,
    ensures
        spec_mod_install_files(paths).contains(
            (spec_push(mods_dir(), spec_file_name(paths[i])->0), paths[i]),
        ),
    decreases paths.len(),
{
    let rest = spec_mod_install_files(paths.drop_last());
    let item = (spec_push(mods_dir(), spec_file_name(paths[i])->0), paths[i]);
    if i == paths.len() - 1 {
        let all = rest.push(item);
        assert(all[rest.len() as int] == item);
    } else {
        assert(paths.drop_last()[i] == paths[i]);
        law_mod_install_every_named_path(paths.drop_last(), i);
        let k = choose|k: int| 0 <= k < rest.len() && rest[k] == item;
        match spec_file_name(paths.last()) {
            Some(f) => {
                let all = rest.push((spec_push(mods_dir(), f), paths.last()));
                assert(all[k] == item);
            },
            None => {},
        }
    }
}

/// The installs take their sources, in order, from exactly the chosen
/// paths that have a file name, and each goes to `mods/` under that file
/// name; so there are as many installs as such paths.
pub proof fn law_mod_install_sources(paths: Seq<Seq<char>>)
    ensures
        spec_mod_install_files(paths).map_values(|x: (Seq<char>, Seq<char>)| x.1) == paths.filter(named_paths()),
        spec_mod_install_files(paths).len() == paths.filter(named_paths()).len(),
        forall|k: int|
            0 <= k < spec_mod_install_files(paths).len() ==> (#[trigger] spec_mod_install_files(
                paths,
            )[k]).0 == spec_push(mods_dir(), spec_file_name(spec_mod_install_files(paths)[k].1)->0)
                && names_a_file(spec_mod_install_files(paths)[k].1),
    decreases paths.len(),
{
    reveal(Seq::filter);
    if paths.len() > 0 {
        law_mod_install_sources(paths.drop_last());
        let rest = spec_mod_install_files(paths.drop_last());
        let sub = paths.drop_last().filter(named_paths());
        match spec_file_name(paths.last()) {
            Some(f) => {
                let item = (spec_push(mods_dir(), f), paths.last());
                assert(rest.push(item).map_values(|x: (Seq<char>, Seq<char>)| x.1) =~= rest.map_values(
                    |x: (Seq<char>, Seq<char>)| x.1,
                ).push(paths.last()));
                assert(names_a_file(paths.last()));
                assert(paths.filter(named_paths()) == sub.push(paths.last()));
                let all = rest.push(item);
                assert forall|k: int| 0 <= k < all.len() implies (#[trigger] all[k]).0 == spec_push(
                    mods_dir(),
                    spec_file_name(all[k].1)->0,
                ) && names_a_file(all[k].1) by {
                    if k < rest.len() {
                        assert(all[k] == rest[k]);
                    }
                }
            },
            None => {
                assert(!names_a_file(paths.last()));
                assert(paths.filter(named_paths()) == sub);
            },
        }
    }
}

pub open spec fn paths_view(v: Seq<UnixPath>) -> Seq<Seq<char>> {
    v.map_values(|p: UnixPath| p@)
}

pub open spec fn installs_view(v: Seq<ModInstallFile>) -> Seq<(Seq<char>, Seq<char>)> {
    v.map_values(|m: ModInstallFile| (m.target@, m.source@))
}

/// The installs for the chosen files; paths without a file name (such as
/// `/` or `..`) are passed over.
pub fn mod_install_files(paths: &Vec<UnixPath>) -> (r: Vec<ModInstallFile>)
    ensures
        installs_view(r@) == spec_mod_install_files(paths_view(paths@)),
        forall|i: int|
            0 <= i < r@.len() ==> #[trigger] r@[i].target@ == mods_dir() + seq!['/']
                + spec_file_name(r@[i].source@)->0,
        r@.len() == paths_view(paths@).filter(named_paths()).len(),
        forall|i: int|
            0 <= i < paths@.len() && names_a_file(#[trigger] paths@[i]@) ==> exists|k: int|
                0 <= k < r@.len() && r@[k].source@ == paths@[i]@ && r@[k].target@ == spec_push(
                    mods_dir(),
                    spec_file_name(paths@[i]@)->0,
                ),
{
    let mut r: Vec<ModInstallFile> = Vec::new();
    let mods = UnixPath::new("mods");
    proof {
        reveal_strlit("mods");
        assert(mods@ == mods_dir());
    }
    let mut i: usize = 0;
    while i < paths.len()
        invariant
            i <= paths.len(),
            mods@ == mods_dir(),
            installs_view(r@) == spec_mod_install_files(paths_view(paths@).subrange(0, i as int)),
            forall|j: int|
                0 <= j < r@.len() ==> #[trigger] r@[j].target@ == mods_dir() + seq!['/']
                    + spec_file_name(r@[j].source@)->0,
        decreases paths.len() - i,
    {
        let ghost before = paths_view(paths@).subrange(0, i as int);
        let ghost after = paths_view(paths@).subrange(0, i as int + 1);
        assert(after.drop_last() == before);
        assert(after.last() == paths@[i as int]@);
        let path = &paths[i];
        match path.file_name() {
            Some(f) => {
                let name = UnixPath::new(f.as_str());
                let target = mods.join(&name);
                proof {
                    crate::aux_path::lemma_file_name_plain(path@);
                    lemma_push_name(mods_dir(), f@);
                }
                let ghost old_r = r@;
                r.push(ModInstallFile { target, source: path.duplicate() });
                assert(installs_view(r@) == installs_view(old_r).push((target@, path@)));
            },
            None => {},
        }
        i = i + 1;
    }
    assert(paths_view(paths@).subrange(0, paths@.len() as int) == paths_view(paths@));
    proof {
        let pv = paths_view(paths@);
        law_mod_install_sources(pv);
        assert forall|i: int|
            0 <= i < paths@.len() && names_a_file(#[trigger] paths@[i]@) implies exists|k: int|
                0 <= k < r@.len() && r@[k].source@ == paths@[i]@ && r@[k].target@ == spec_push(
                    mods_dir(),
                    spec_file_name(paths@[i]@)->0,
                ) by {
            assert(pv[i] == paths@[i]@);
            law_mod_install_every_named_path(pv, i);
            let item = (spec_push(mods_dir(), spec_file_name(pv[i])->0), pv[i]);
            let k = choose|k: int|
                0 <= k < spec_mod_install_files(pv).len() && spec_mod_install_files(pv)[k] == item;
            assert(installs_view(r@)[k] == (r@[k].target@, r@[k].source@));
        }
    }
    r
}

/// The row of the sort dropdown to select: where the current sort key
/// stands among the offered keys, or the first row when it is not
/// offered.
pub fn sort_dropdown_row(keys: &Vec<u32>, current: u32) -> (r: usize)
    ensures
        (exists|i: int| 0 <= i < keys@.len() && keys@[i] == current) ==> {
            &&& r < keys@.len()
            &&& keys@[r as int] == current
            &&& forall|i: int| 0 <= i < r ==> keys@[i] != current
        },
        !(exists|i: int| 0 <= i < keys@.len() && keys@[i] == current) ==> r == 0,
{
    let mut i: usize = 0;
    while i < keys.len()
        invariant
            i <= keys.len(),
            forall|k: int| 0 <= k < i ==> keys@[k] != current,
        decreases keys.len() - i,
    {
        if keys[i] == current {
            return i;
        }
        i = i + 1;
    }
    0
}

} // verus!
