//! Where the launcher keeps the auxiliary metadata file of a piece of
//! installed content: a hidden `.aux.json` file beside it.
use crate::names::{spec_trim_ascii, trim_ascii_str};
use crate::text::{chars_of, string_of};
use crate::unix_path::{
    append_chars, ends_in_name_at, ext_dot, last_index, lemma_last_index, lemma_name_tail, is_plain_name, lemma_name_bounds, lemma_push_add_extension,
    lemma_push_name, spec_add_extension, spec_extension, spec_file_name, spec_parent, spec_push,
    spec_set_extension, spec_set_file_name, UnixPath,
};
use vstd::prelude::*;

verus! {

/// What the logic reads of a piece of content: its id and its name.
pub struct ContentSummary {
    pub id: Option<String>,
    pub name: Option<String>,
}

/// What the logic reads of content installed in an instance: its summary
/// and where it lies.
pub struct InstanceContentSummary {
    pub content_summary: ContentSummary,
    pub path: UnixPath,
}

pub open spec fn opt_view(o: Option<String>) -> Option<Seq<char>> {
    match o {
        Some(s) => Some(s@),
        None => None,
    }
}

pub open spec fn aux_ext() -> Seq<char> {
    seq!['a', 'u', 'x']
}

pub open spec fn json_ext() -> Seq<char> {
    seq!['j', 's', 'o', 'n']
}

pub open spec fn disabled_ext() -> Seq<char> {
    seq!['d', 'i', 's', 'a', 'b', 'l', 'e', 'd']
}

/// `.` followed by `n`: a hidden file name.
pub open spec fn dot_name(n: Seq<char>) -> Seq<char> {
    seq!['.'] + n
}

/// The aux file name made from `n`: `.{n}.aux.json`.
pub open spec fn aux_file_name(n: Seq<char>) -> Seq<char> {
    dot_name(n) + seq!['.'] + aux_ext() + seq!['.'] + json_ext()
}

/// The id when there is one, else the name.
pub open spec fn chosen_label(id: Option<Seq<char>>, name: Option<Seq<char>>) -> Option<
    Seq<char>,
> {
    if id is Some {
        id
    } else {
        name
    }
}

/// The label, trimmed of ASCII whitespace, when it is not blank.
pub open spec fn usable_label(id: Option<Seq<char>>, name: Option<Seq<char>>) -> Option<
    Seq<char>,
> {
    match chosen_label(id, name) {
        Some(l) => if spec_trim_ascii(l).len() > 0 {
            Some(spec_trim_ascii(l))
        } else {
            None
        },
        None => None,
    }
}

/// Aux path for labelled content: `.{label}` in the parent directory,
/// with the `aux` and then the `json` extension added.
pub open spec fn labelled_aux(path: Seq<char>, label: Seq<char>) -> Option<Seq<char>> {
    match spec_parent(path) {
        Some(par) => Some(
            spec_add_extension(
                spec_add_extension(spec_push(par, dot_name(label)), aux_ext()),
                json_ext(),
            ),
        ),
        None => None,
    }
}

/// The path with a `disabled` extension dropped, if it has one.
pub open spec fn enabled_form(path: Seq<char>) -> Seq<char> {
    if spec_extension(path) == Some(disabled_ext()) {
        spec_set_extension(path, Seq::<char>::empty())
    } else {
        path
    }
}

/// Aux path for unlabelled content: the file name (of the enabled form of
/// the path) made hidden, with the `aux` and `json` extensions added.
pub open spec fn unlabelled_aux(path: Seq<char>) -> Option<Seq<char>> {
    let q = enabled_form(path);
    match spec_file_name(q) {
        Some(f) => Some(
            spec_add_extension(
                spec_add_extension(spec_set_file_name(q, dot_name(f)), aux_ext()),
                json_ext(),
            ),
        ),
        None => None,
    }
}

pub open spec fn spec_pandora_aux_path(
    id: Option<Seq<char>>,
    name: Option<Seq<char>>,
    path: Seq<char>,
) -> Option<Seq<char>> {
    match usable_label(id, name) {
        Some(l) => labelled_aux(path, l),
        None => unlabelled_aux(path),
    }
}

/// Equality of two character vectors.
pub fn chars_eq(a: &Vec<char>, b: &Vec<char>) -> (r: bool)
    ensures
        r == (a@ == b@),
{
    if a.len() != b.len() {
        return false;
    }
    let mut i: usize = 0;
    while i < a.len()
        invariant
            a.len() == b.len(),
            i <= a.len(),
            forall|k: int| 0 <= k < i ==> a@[k] == b@[k],
        decreases a.len() - i,
    {
        if a[i] != b[i] {
            return false;
        }
        i = i + 1;
    }
    assert(a@ == b@);
    true
}

/// The `.aux.json` file that belongs to the content at `path`.
///
/// With an id or a name (the id preferred) that is not blank once trimmed
/// of ASCII whitespace, the file is `.{label}.aux.json` in the parent
/// directory of `path`, and there is none when `path` has no parent.
/// Without one it is the file name of `path` (with a `.disabled`
/// extension dropped) made hidden, with `.aux.json` added; there is none
/// when that path has no file name.
pub fn pandora_aux_path(id: &Option<String>, name: &Option<String>, path: &UnixPath) -> (r: Option<
    UnixPath,
>)
    ensures
        opt_path_view(r) == spec_pandora_aux_path(opt_view(*id), opt_view(*name), path@),
        usable_label(opt_view(*id), opt_view(*name)) matches Some(l) ==> (is_plain_name(dot_name(l))
            ==> opt_path_view(r) == match spec_parent(path@) {
            Some(par) => Some(spec_push(par, aux_file_name(l))),
            None => None,
        }),
        usable_label(opt_view(*id), opt_view(*name)) is None ==> opt_path_view(r) == match (
            spec_parent(enabled_form(path@)),
            spec_file_name(enabled_form(path@)),
        ) {
            (Some(par), Some(f)) => Some(spec_push(par, aux_file_name(f))),
            _ => None,
        },
        ({
            let t = spec_trim_ascii(
                if id is Some {
                    id->0@
                } else {
                    name->0@
                },
            );
            (id is Some || name is Some) && t.len() > 0 && is_plain_name(seq!['.'] + t)
                ==> opt_path_view(r) == match spec_parent(path@) {
                Some(par) => Some(
                    spec_push(par, seq!['.'] + t + seq!['.', 'a', 'u', 'x', '.', 'j', 's', 'o', 'n']),
                ),
                None => None,
            }
        }),
{
    proof {
        if id is Some || name is Some {
            let t = spec_trim_ascii(
                if id is Some {
                    id->0@
                } else {
                    name->0@
                },
            );
            if t.len() > 0 && is_plain_name(seq!['.'] + t) {
                law_aux_file_is_whole_trimmed_label(opt_view(*id), opt_view(*name), path@);
            }
        }
        reveal_strlit("aux");
        reveal_strlit("json");
        reveal_strlit("disabled");
        assert("aux"@ == aux_ext());
        assert("json"@ == json_ext());
        assert("disabled"@ == disabled_ext());
        lemma_aux_direct(opt_view(*id), opt_view(*name), path@);
    }
    let chosen: Option<&String> = match id {
        Some(i) => Some(i),
        None => match name {
            Some(n) => Some(n),
            None => None,
        },
    };
    if let Some(label) = chosen {
        let t = trim_ascii_str(label.as_str());
        if t.len() > 0 {
            let parent = match path.parent() {
                Some(p) => p,
                None => {
                    return None;
                },
            };
            let mut hidden: Vec<char> = vec!['.'];
            append_chars(&mut hidden, &t);
            assert(hidden@ == dot_name(t@));
            let mut r = parent.join(&UnixPath { chars: hidden });
            r.add_extension("aux");
            r.add_extension("json");
            return Some(r);
        }
    }
    let mut q = path.duplicate();
    if let Some(ext) = q.extension() {
        if chars_eq(&chars_of(ext.as_str()), &chars_of("disabled")) {
            proof {
                reveal_strlit("");
                assert(""@ == Seq::<char>::empty());
            }
            q.set_extension("");
        }
    }
    assert(q@ == enabled_form(path@));
    let f = match q.file_name() {
        Some(f) => f,
        None => {
            return None;
        },
    };
    let mut hidden: Vec<char> = vec!['.'];
    append_chars(&mut hidden, &chars_of(f.as_str()));
    assert(hidden@ == dot_name(f@));
    q.set_file_name(string_of(&hidden).as_str());
    q.add_extension("aux");
    q.add_extension("json");
    Some(q)
}

pub open spec fn opt_path_view(o: Option<UnixPath>) -> Option<Seq<char>> {
    match o {
        Some(p) => Some(p@),
        None => None,
    }
}

/// The file name of a path is a plain name, and so is its hidden form.
pub proof fn lemma_file_name_plain(q: Seq<char>)
    requires
        spec_file_name(q) is Some,
    ensures
        is_plain_name(spec_file_name(q)->0),
        is_plain_name(dot_name(spec_file_name(q)->0)),
        spec_parent(q) is Some,
{
    lemma_name_bounds(q);
    let f = spec_file_name(q)->0;
    assert(!f.contains('/')) by {
        assert forall|i: int| 0 <= i < f.len() implies f[i] != '/' by {
            assert(f[i] == q[crate::unix_path::name_start(q) + i]);
        }
    }
    let d = dot_name(f);
    assert(!d.contains('/')) by {
        assert forall|i: int| 0 <= i < d.len() implies d[i] != '/' by {
            if i > 0 {
                assert(d[i] == f[i - 1]);
            }
        }
    }
}

/// The aux path in the direct form that the contract of
/// `pandora_aux_path` states.
pub proof fn lemma_aux_direct(id: Option<Seq<char>>, name: Option<Seq<char>>, path: Seq<char>)
    ensures
        usable_label(id, name) matches Some(l) ==> (is_plain_name(dot_name(l))
            ==> spec_pandora_aux_path(id, name, path) == match spec_parent(path) {
            Some(par) => Some(spec_push(par, aux_file_name(l))),
            None => None,
        }),
        usable_label(id, name) is None ==> spec_pandora_aux_path(id, name, path) == match (
            spec_parent(enabled_form(path)),
            spec_file_name(enabled_form(path)),
        ) {
            (Some(par), Some(f)) => Some(spec_push(par, aux_file_name(f))),
            _ => None,
        },
{
    match usable_label(id, name) {
        Some(l) => {
            if is_plain_name(dot_name(l)) {
                if let Some(par) = spec_parent(path) {
                    let x = dot_name(l);
                    lemma_push_add_extension(par, x, aux_ext());
                    lemma_push_add_extension(par, x + seq!['.'] + aux_ext(), json_ext());
                    assert(x + seq!['.'] + aux_ext() + seq!['.'] + json_ext() == aux_file_name(l));
                }
            }
        },
        None => {
            let q = enabled_form(path);
            if let Some(f) = spec_file_name(q) {
                lemma_file_name_plain(q);
                let par = spec_parent(q)->0;
                let x = dot_name(f);
                assert(spec_set_file_name(q, x) == spec_push(par, x));
                lemma_push_add_extension(par, x, aux_ext());
                lemma_push_add_extension(par, x + seq!['.'] + aux_ext(), json_ext());
                assert(x + seq!['.'] + aux_ext() + seq!['.'] + json_ext() == aux_file_name(f));
            }
        },
    }
}

/// `pandora_aux_path` for installed content.
pub fn pandora_aux_path_for_content(content: &InstanceContentSummary) -> (r: Option<UnixPath>)
    ensures
        opt_path_view(r) == spec_pandora_aux_path(
            opt_view(content.content_summary.id),
            opt_view(content.content_summary.name),
            content.path@,
        ),
{
    pandora_aux_path(&content.content_summary.id, &content.content_summary.name, &content.path)
}

/// The id, when present, decides the aux file: the name is then never
/// read.
pub proof fn law_id_takes_precedence(
    id: Seq<char>,
    name1: Option<Seq<char>>,
    name2: Option<Seq<char>>,
    path: Seq<char>,
)
    ensures
        spec_pandora_aux_path(Some(id), name1, path) == spec_pandora_aux_path(
            Some(id),
            name2,
            path,
        ),
{
}

/// Disabling unlabelled content, by adding `.disabled` to its file name,
/// leaves its aux file where it was. (Not so for a path that is empty or
/// ends in `/`, where `.disabled` becomes a hidden file name, nor for one
/// that already ends in `.disabled`, where only one is dropped.)
pub proof fn law_disabled_keeps_aux(path: Seq<char>)
    requires
        path.len() > 0,
        path.last() != '/',
        spec_extension(path) != Some(disabled_ext()),
    ensures
        spec_pandora_aux_path(None, None, path + seq!['.'] + disabled_ext())
            == spec_pandora_aux_path(None, None, path),
{
    let n = path.len() as int;
    let s = path + seq!['.'] + disabled_ext();
    lemma_last_index(path, '/', 0, n);
    let k = last_index(path, '/', 0, n) + 1;
    assert(k < n);
    assert forall|i: int| k <= i < s.len() implies s[i] != '/' by {
        if i < n {
            assert(s[i] == path[i]);
        }
    }
    if k > 0 {
        assert(s[k - 1] == path[k - 1]);
    }
    assert(ends_in_name_at(s, k));
    lemma_name_tail(s, k);
    lemma_last_index(s, '.', k, s.len() as int);
    assert(s[n] == '.');
    assert(ext_dot(s) == n) by {
        let r = ext_dot(s);
        if r < n {
            assert(r < n < s.len());
        }
        if r > n {
            assert(s[r] == disabled_ext()[r - n - 1]);
        }
    }
    assert(spec_extension(s) == Some(disabled_ext())) by {
        assert(s.subrange(n + 1, s.len() as int) == disabled_ext());
    }
    assert(enabled_form(s) == path) by {
        assert(s.subrange(0, n) == path);
    }
}

/// The aux file lies beside the content: in the parent directory of its
/// path when the content is labelled by a plain name, and otherwise in
/// the parent directory of the path's enabled form. (For a path such as
/// `x/..disabled`, whose enabled form is `x/.`, that is not the parent of
/// the path itself.)
pub proof fn law_aux_is_sibling(id: Option<Seq<char>>, name: Option<Seq<char>>, path: Seq<char>)
    ensures
        usable_label(id, name) matches Some(l) ==> (is_plain_name(dot_name(l)) ==> (
        spec_pandora_aux_path(id, name, path) matches Some(a) ==> spec_parent(a) == spec_parent(
            path,
        ))),
        usable_label(id, name) is None ==> (spec_pandora_aux_path(id, name, path) matches Some(a)
            ==> spec_parent(a) == spec_parent(enabled_form(path))),
{
    lemma_aux_direct(id, name, path);
    match usable_label(id, name) {
        Some(l) => {
            if is_plain_name(dot_name(l)) {
                if let Some(par) = spec_parent(path) {
                    lemma_push_add_extension(par, dot_name(l), aux_ext());
                    lemma_push_add_extension(
                        par,
                        dot_name(l) + seq!['.'] + aux_ext(),
                        json_ext(),
                    );
                    let x = aux_file_name(l);
                    assert(is_plain_name(x));
                    crate::names::lemma_plain_name_single(x);
                    crate::names::lemma_parent_ends_clean(path);
                    crate::names::law_single_component_stays_in_dir(par, x);
                }
            }
        },
        None => {
            let q = enabled_form(path);
            if let Some(f) = spec_file_name(q) {
                lemma_file_name_plain(q);
                let par = spec_parent(q)->0;
                lemma_push_add_extension(par, dot_name(f), aux_ext());
                lemma_push_add_extension(par, dot_name(f) + seq!['.'] + aux_ext(), json_ext());
                let x = aux_file_name(f);
                assert(is_plain_name(x));
                crate::names::lemma_plain_name_single(x);
                crate::names::lemma_parent_ends_clean(q);
                crate::names::law_single_component_stays_in_dir(par, x);
            }
        },
    }
}

/// For labelled content, adding `.disabled` to a path that ends in its
/// file name leaves its aux file where it was. (The path must end in its
/// file name: `x/.` with a label has its aux file beside `x`, while
/// `x/..disabled` has it inside `x`.)
pub proof fn law_disabled_keeps_labelled_aux(
    id: Option<Seq<char>>,
    name: Option<Seq<char>>,
    path: Seq<char>,
)
    requires
        usable_label(id, name) is Some,
        spec_file_name(path) is Some,
        crate::unix_path::name_end(path) == path.len(),
    ensures
        spec_pandora_aux_path(id, name, path + seq!['.'] + disabled_ext())
            == spec_pandora_aux_path(id, name, path),
{
    crate::unix_path::lemma_add_extension_parent(path, disabled_ext());
    assert(path.subrange(0, path.len() as int) == path);
}

/// The label of labelled content is its id when it has one, else its
/// name, with only leading and trailing ASCII whitespace removed: when
/// that is not blank (and makes a plain hidden name), the aux file is
/// `.{label}.aux.json` in the parent directory of the content, with every
/// inner character of the label kept, spaces included.
pub proof fn law_aux_file_is_whole_trimmed_label(
    id: Option<Seq<char>>,
    name: Option<Seq<char>>,
    path: Seq<char>,
)
    requires
        id is Some || name is Some,
        spec_trim_ascii(if id is Some { id->0 } else { name->0 }).len() > 0,
        is_plain_name(seq!['.'] + spec_trim_ascii(if id is Some { id->0 } else { name->0 })),
    ensures
        ({
            let t = spec_trim_ascii(if id is Some { id->0 } else { name->0 });
            let file = seq!['.'] + t + seq!['.', 'a', 'u', 'x', '.', 'j', 's', 'o', 'n'];
            &&& spec_pandora_aux_path(id, name, path) == match spec_parent(path) {
                Some(par) => Some(spec_push(par, file)),
                None => None,
            }
            &&& (spec_pandora_aux_path(id, name, path) matches Some(a) ==> spec_file_name(a)
                == Some(file))
        }),
{
    let t = spec_trim_ascii(if id is Some { id->0 } else { name->0 });
    let file = seq!['.'] + t + seq!['.', 'a', 'u', 'x', '.', 'j', 's', 'o', 'n'];
    assert(usable_label(id, name) == Some(t));
    assert(aux_file_name(t) == file);
    lemma_aux_direct(id, name, path);
    if let Some(par) = spec_parent(path) {
        assert(is_plain_name(file)) by {
            assert(!file.contains('/')) by {
                assert forall|i: int| 0 <= i < file.len() implies file[i] != '/' by {
                    if i < t.len() + 1 {
                        assert(file[i] == (seq!['.'] + t)[i]);
                    }
                }
            }
        }
        lemma_push_name(par, file);
    }
}

} // verus!
