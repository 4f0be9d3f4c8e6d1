//! Checks on names that users and mod metadata hand to the launcher.
use crate::text::chars_of;
use crate::unix_path::{
    body_comps, body_start, comp_cut, comp_start, copy_range, has_cur_dir, has_root,
    is_dot_dot, is_skipped, last_index, lemma_last_index, lemma_last_index_agree,
    lemma_next_index, lemma_trim_end, lemma_trim_end_agree, next_index, seg_comp,
    spec_components, spec_file_name, spec_parent, spec_push, trim_end, Comp, PathComponent,
    UnixPath,
};
use vstd::prelude::*;

verus! {

/// `Path::components` of `s` is a single normal component: a plain name,
/// maybe with trailing separators or `.` segments.
pub open spec fn spec_is_single_component(s: Seq<char>) -> bool {
    let c = spec_components(s);
    c.len() == 1 && c[0] is Normal
}

/// True when the path is exactly one normal component, so that joining
/// it onto a directory names an entry of that directory.
pub fn is_single_component_path(path: &UnixPath) -> (r: bool)
    ensures
        r == spec_is_single_component(path@),
{
    let components = path.components();
    if components.len() > 0 {
        match &components[0] {
            PathComponent::Normal(_) => {},
            _ => {
                return false;
            },
        }
    }
    components.len() == 1
}

/// `is_single_component_path` on the path with text `path`.
pub fn is_single_component_path_str(path: &str) -> (r: bool)
    ensures
        r == spec_is_single_component(path@),
{
    is_single_component_path(&UnixPath::new(path))
}

/// What `u8::is_ascii_whitespace` accepts.
pub open spec fn is_ascii_ws(c: char) -> bool {
    c == ' ' || c == '\t' || c == '\n' || c == '\x0C' || c == '\r'
}

/// First index at or after `i` that is not ASCII whitespace (or the length).
pub open spec fn ws_start(s: Seq<char>, i: int) -> int
    decreases s.len() - i,
{
    if i >= s.len() {
        s.len() as int
    } else if is_ascii_ws(s[i]) {
        ws_start(s, i + 1)
    } else {
        i
    }
}

/// End of `s[lo..e]` once trailing ASCII whitespace is dropped.
pub open spec fn ws_end(s: Seq<char>, lo: int, e: int) -> int
    decreases e - lo,
{
    if e <= lo {
        lo
    } else if is_ascii_ws(s[e - 1]) {
        ws_end(s, lo, e - 1)
    } else {
        e
    }
}

/// `str::trim_ascii`: `s` without leading and trailing ASCII whitespace.
pub open spec fn spec_trim_ascii(s: Seq<char>) -> Seq<char> {
    s.subrange(ws_start(s, 0), ws_end(s, ws_start(s, 0), s.len() as int))
}

pub proof fn lemma_ws_start_bounds(s: Seq<char>, i: int)
    requires
        0 <= i <= s.len(),
    ensures
        i <= ws_start(s, i) <= s.len(),
        forall|k: int| i <= k < ws_start(s, i) ==> is_ascii_ws(#[trigger] s[k]),
        ws_start(s, i) < s.len() ==> !is_ascii_ws(s[ws_start(s, i)]),
    decreases s.len() - i,
{
    if i < s.len() && is_ascii_ws(s[i]) {
        lemma_ws_start_bounds(s, i + 1);
    }
}

pub proof fn lemma_ws_end_bounds(s: Seq<char>, lo: int, e: int)
    requires
        lo <= e,
    ensures
        lo <= ws_end(s, lo, e) <= e,
        forall|k: int| ws_end(s, lo, e) <= k < e ==> is_ascii_ws(#[trigger] s[k]),
        ws_end(s, lo, e) > lo ==> !is_ascii_ws(s[ws_end(s, lo, e) - 1]),
    decreases e - lo,
{
    if e > lo && is_ascii_ws(s[e - 1]) {
        lemma_ws_end_bounds(s, lo, e - 1);
    }
}

/// `trim_ascii` cuts `s` at two points and keeps what lies between,
/// untouched: everything before the first cut and from the second cut on
/// is ASCII whitespace, and what is kept, when not empty, neither starts
/// nor ends with ASCII whitespace. Characters inside it, spaces included,
/// all stay.
pub proof fn law_trim_ascii_strips_only_the_ends(s: Seq<char>)
    ensures
        exists|a: int, b: int|
            {
                &&& 0 <= a <= b <= s.len()
                &&& spec_trim_ascii(s) == s.subrange(a, b)
                &&& forall|k: int| 0 <= k < a ==> is_ascii_ws(#[trigger] s[k])
                &&& forall|k: int| b <= k < s.len() ==> is_ascii_ws(#[trigger] s[k])
                &&& a < b ==> !is_ascii_ws(s[a]) && !is_ascii_ws(s[b - 1])
            },
        spec_trim_ascii(s).len() > 0 ==> !is_ascii_ws(spec_trim_ascii(s)[0]) && !is_ascii_ws(
            spec_trim_ascii(s).last(),
        ),
{
    lemma_ws_start_bounds(s, 0);
    let a = ws_start(s, 0);
    lemma_ws_end_bounds(s, a, s.len() as int);
    let b = ws_end(s, a, s.len() as int);
    if a < b {
        assert(spec_trim_ascii(s)[0] == s[a]);
        assert(spec_trim_ascii(s).last() == s[b - 1]);
    }
    assert(spec_trim_ascii(s) == s.subrange(a, b));
}

/// `trim_ascii` on a character vector.
pub fn trim_ascii(v: &Vec<char>) -> (r: Vec<char>)
    ensures
        r@ == spec_trim_ascii(v@),
{
    proof {
        lemma_ws_start_bounds(v@, 0);
    }
    let mut a: usize = 0;
    while a < v.len() && (v[a] == ' ' || v[a] == '\t' || v[a] == '\n' || v[a] == '\x0C' || v[a]
        == '\r')
        invariant
            a <= v.len(),
            ws_start(v@, a as int) == ws_start(v@, 0),
        decreases v.len() - a,
    {
        a = a + 1;
    }
    proof {
        lemma_ws_end_bounds(v@, a as int, v@.len() as int);
    }
    let mut b: usize = v.len();
    while b > a && (v[b - 1] == ' ' || v[b - 1] == '\t' || v[b - 1] == '\n' || v[b - 1] == '\x0C'
        || v[b - 1] == '\r')
        invariant
            a <= b <= v.len(),
            ws_end(v@, a as int, b as int) == ws_end(v@, a as int, v@.len() as int),
        decreases b - a,
    {
        b = b - 1;
    }
    copy_range(v, a, b)
}

/// The characters of `s`, trimmed of ASCII whitespace.
pub fn trim_ascii_str(s: &str) -> (r: Vec<char>)
    ensures
        r@ == spec_trim_ascii(s@),
{
    trim_ascii(&chars_of(s))
}

// ---------------------------------------------------------------------
// A single component names an entry of the directory it is joined to
// ---------------------------------------------------------------------

/// The directory text does not end in a separator or a `.` segment, as
/// `""`, `"/"`, `"."`, `"a"` and `"a/b"` do not, and `"a/"` and `"a/."` do.
pub open spec fn ends_clean(dir: Seq<char>) -> bool {
    trim_end(dir, body_start(dir), dir.len() as int) == dir.len()
}

/// The first segment of `s`, which is the component of a
/// single-component path.
pub open spec fn single_name(s: Seq<char>) -> Seq<char> {
    s.subrange(0, next_index(s, '/', 0))
}

/// From index `i` on, `s` holds only separators and `.` segments.
pub open spec fn only_skipped_from(s: Seq<char>, i: int) -> bool {
    forall|k: int|
        i <= k < s.len() ==> #[trigger] s[k] == '/' || (s[k] == '.' && (k == i || s[k - 1] == '/')
            && (k + 1 == s.len() || s[k + 1] == '/'))
}

pub proof fn lemma_no_comps_only_skipped(s: Seq<char>, i: int)
    requires
        0 <= i <= s.len(),
        body_comps(s, i) == Seq::<Comp>::empty(),
    ensures
        only_skipped_from(s, i),
    decreases s.len() - i,
{
    let j = next_index(s, '/', i);
    lemma_next_index(s, '/', i);
    if j < s.len() {
        assert(body_comps(s, i) == seg_comp(s, i, j) + body_comps(s, j + 1));
        assert(seg_comp(s, i, j).len() == 0) by {
            assert(body_comps(s, i).len() == seg_comp(s, i, j).len() + body_comps(s, j + 1).len());
        }
        assert(body_comps(s, j + 1) =~= Seq::<Comp>::empty()) by {
            assert(body_comps(s, i) == seg_comp(s, i, j) + body_comps(s, j + 1));
        }
        lemma_no_comps_only_skipped(s, j + 1);
    }
    assert(is_skipped(s, i, j)) by {
        if !is_skipped(s, i, j) {
            assert(seg_comp(s, i, j).len() == 1);
        }
    }
}

/// What a single-component path looks like: a plain first segment, then
/// only separators and `.` segments.
pub proof fn lemma_single_shape(s: Seq<char>)
    requires
        spec_is_single_component(s),
    ensures
        !has_root(s),
        !has_cur_dir(s),
        0 < next_index(s, '/', 0) <= s.len(),
        !is_skipped(s, 0, next_index(s, '/', 0)),
        !is_dot_dot(s, 0, next_index(s, '/', 0)),
        forall|k: int| 0 <= k < next_index(s, '/', 0) ==> s[k] != '/',
        next_index(s, '/', 0) < s.len() ==> only_skipped_from(s, next_index(s, '/', 0) + 1),
        spec_components(s) == seq![Comp::Normal(single_name(s))],
{
    let c = spec_components(s);
    let j = next_index(s, '/', 0);
    lemma_next_index(s, '/', 0);
    assert(!has_root(s) && !has_cur_dir(s)) by {
        if has_root(s) || has_cur_dir(s) {
            assert(c[0] == (if has_root(s) {
                Comp::RootDir
            } else {
                Comp::CurDir
            }));
        }
    }
    assert(body_start(s) == 0);
    assert(c == body_comps(s, 0));
    if j < s.len() {
        assert(c == seg_comp(s, 0, j) + body_comps(s, j + 1));
    } else {
        assert(c == seg_comp(s, 0, j));
    }
    assert(!is_skipped(s, 0, j)) by {
        if is_skipped(s, 0, j) {
            if j == 0 {
                if s.len() > 0 {
                    assert(s[0] == '/');
                }
            } else {
                assert(s[0] == '.');
                if j < s.len() {
                    assert(s[1] == '/');
                }
            }
            if j < s.len() {
                assert(c == body_comps(s, j + 1));
            }
        }
    }
    assert(seg_comp(s, 0, j).len() == 1);
    assert(!is_dot_dot(s, 0, j)) by {
        if is_dot_dot(s, 0, j) {
            assert(c[0] == Comp::ParentDir);
        }
    }
    if j < s.len() {
        assert(body_comps(s, j + 1) =~= Seq::<Comp>::empty()) by {
            assert(c.len() == 1 + body_comps(s, j + 1).len());
        }
        lemma_no_comps_only_skipped(s, j + 1);
    }
}

/// Trailing separators and `.` segments after the separator at `p` are
/// all trimmed away.
pub proof fn lemma_trim_skipped_tail(t: Seq<char>, lo: int, p: int, e: int)
    requires
        0 <= lo <= p < e <= t.len(),
        t[p] == '/',
        forall|k: int|
            p < k < t.len() ==> #[trigger] t[k] == '/' || (t[k] == '.' && t[k - 1] == '/' && (k
                + 1 == t.len() || t[k + 1] == '/')),
        e == t.len() || t[e] == '/',
    ensures
        trim_end(t, lo, e) == trim_end(t, lo, p),
    decreases e - p,
{
    lemma_last_index(t, '/', lo, e);
    let r = last_index(t, '/', lo, e);
    assert(r >= p) by {
        if r < p {
            assert(r < p < e);
        }
    }
    assert(is_skipped(t, r + 1, e)) by {
        if e > r + 1 {
            assert(t[r + 1] != '/');
            assert(t[r + 1] == '.');
            if e > r + 2 {
                assert(t[r + 2] != '/');
                assert(t[r + 2] == '.' && t[r + 1] == '/');
            }
        }
    }
    assert(trim_end(t, lo, e) == trim_end(t, lo, r));
    if r > p {
        lemma_trim_skipped_tail(t, lo, p, r);
    }
}

/// How `push` places a relative path `s` after `dir`.
pub proof fn lemma_push_shape(dir: Seq<char>, s: Seq<char>)
    requires
        s.len() > 0,
        s[0] != '/',
    ensures
        ({
            let t = spec_push(dir, s);
            let o = t.len() - s.len();
            &&& o == dir.len() || o == dir.len() + 1
            &&& t.subrange(o, t.len() as int) == s
            &&& forall|k: int| o <= k < t.len() ==> #[trigger] t[k] == s[k - o]
            &&& t.subrange(0, dir.len() as int) == dir
            &&& (dir.len() == 0 ==> t == s && o == 0)
            &&& (dir.len() > 0 ==> o > 0 && t[o - 1] == '/' && body_start(t) == body_start(dir))
            &&& (o == dir.len() && o > 0 ==> dir[o - 1] == '/')
        }),
{
    let t = spec_push(dir, s);
    let o = t.len() - s.len();
    assert(!has_root(s));
    assert(t.subrange(o, t.len() as int) == s);
    assert forall|k: int| o <= k < t.len() implies #[trigger] t[k] == s[k - o] by {
        assert(t.subrange(o, t.len() as int)[k - o] == t[k]);
    }
    assert(t.subrange(0, dir.len() as int) == dir);
    if dir.len() == 1 {
        assert(t[0] == dir[0]);
        if dir[0] != '/' {
            assert(t[1] == '/');
        }
    } else if dir.len() >= 2 {
        assert(t[0] == dir[0] && t[1] == dir[1]);
    }
}

/// In `t`, the first segment of the single-component path that starts
/// at `o` is the last component.
pub proof fn lemma_single_name_in(t: Seq<char>, s: Seq<char>, o: int)
    requires
        spec_is_single_component(s),
        0 <= body_start(t) <= o,
        o + s.len() == t.len(),
        t.subrange(o, t.len() as int) == s,
        forall|k: int| o <= k < t.len() ==> #[trigger] t[k] == s[k - o],
        o > 0 ==> t[o - 1] == '/',
    ensures
        trim_end(t, body_start(t), t.len() as int) == o + next_index(s, '/', 0),
        comp_start(t, body_start(t), o + next_index(s, '/', 0)) == o,
        t.subrange(o, o + next_index(s, '/', 0)) == single_name(s),
        !is_skipped(t, o, o + next_index(s, '/', 0)),
        !is_dot_dot(t, o, o + next_index(s, '/', 0)),
{
    lemma_single_shape(s);
    lemma_next_index(s, '/', 0);
    let j = next_index(s, '/', 0);
    let p = o + j;
    let len = t.len() as int;
    let bs = body_start(t);
    if j < s.len() {
        assert(t[p] == s[j]);
        assert forall|k: int| p < k < len implies #[trigger] t[k] == '/' || (t[k] == '.' && t[k
            - 1] == '/' && (k + 1 == len || t[k + 1] == '/')) by {
            assert(t[k] == s[k - o]);
            assert(t[k - 1] == s[k - 1 - o]);
            if k + 1 < len {
                assert(t[k + 1] == s[k + 1 - o]);
            }
            assert(only_skipped_from(s, j + 1));
            assert(s[k - o] == '/' || (s[k - o] == '.' && (k - o == j + 1 || s[k - o - 1] == '/')
                && (k - o + 1 == s.len() || s[k - o + 1] == '/')));
        }
        lemma_trim_skipped_tail(t, bs, p, len);
    }
    lemma_last_index(t, '/', bs, p);
    let r = last_index(t, '/', bs, p);
    assert(r < o) by {
        if r >= o {
            assert(t[r] == s[r - o]);
        }
    }
    assert(o > 0 && o - 1 >= bs ==> r == o - 1) by {
        if o > 0 && o - 1 >= bs && r < o - 1 {
            assert(r < o - 1 < p);
        }
    }
    assert(comp_start(t, bs, p) == o);
    assert(t[o] == s[0]);
    if j >= 2 {
        assert(t[o + 1] == s[1]);
    }
    assert(t.subrange(o, p) == single_name(s));
    assert(trim_end(t, bs, p) == p);
}

/// Joining a single-component path onto a directory that does not end in
/// a separator or `.` names an entry of that directory: the result's
/// parent is the directory and its file name is the component. This is
/// what makes a single component safe to use as a file name.
pub proof fn law_single_component_stays_in_dir(dir: Seq<char>, s: Seq<char>)
    requires
        spec_is_single_component(s),
        ends_clean(dir),
    ensures
        spec_components(s) == seq![Comp::Normal(single_name(s))],
        spec_file_name(spec_push(dir, s)) == Some(single_name(s)),
        spec_parent(spec_push(dir, s)) == Some(dir),
{
    lemma_single_shape(s);
    lemma_push_shape(dir, s);
    let j = next_index(s, '/', 0);
    let t = spec_push(dir, s);
    let o = t.len() - s.len();
    let p = o + j;
    let bs = body_start(t);
    assert(bs <= o) by {
        if dir.len() == 0 {
            assert(bs == body_start(s));
        }
    }
    lemma_single_name_in(t, s, o);
    let cut = comp_cut(t, bs, p);
    lemma_last_index(t, '/', bs, p);
    if dir.len() == 0 {
        assert(cut == 0);
        assert(t.subrange(0, 0) == dir);
    } else if o - 1 == dir.len() {
        assert(cut == dir.len());
        lemma_trim_end_agree(t, dir, bs, dir.len() as int);
    } else {
        // `dir` ends in a separator; only the root does so cleanly
        lemma_last_index(dir, '/', bs, dir.len() as int);
        assert(dir.len() - 1 < bs) by {
            if dir.len() - 1 >= bs {
                assert(last_index(dir, '/', bs, dir.len() as int) == dir.len() - 1);
                assert(is_skipped(dir, comp_start(dir, bs, dir.len() as int), dir.len() as int));
                lemma_trim_end(dir, bs, comp_cut(dir, bs, dir.len() as int));
            }
        }
        assert(cut == bs);
    }
}

/// A plain name is a single-component path.
pub proof fn lemma_plain_name_single(x: Seq<char>)
    requires
        crate::unix_path::is_plain_name(x),
    ensures
        spec_is_single_component(x),
        single_name(x) == x,
{
    assert(x[0] != '/');
    if x.len() > 1 {
        assert(x[1] != '/');
    }
    lemma_next_index(x, '/', 0);
    assert(next_index(x, '/', 0) == x.len()) by {
        if next_index(x, '/', 0) < x.len() {
            assert(x[next_index(x, '/', 0)] == '/');
        }
    }
    assert(body_start(x) == 0);
    assert(body_comps(x, 0) == seg_comp(x, 0, x.len() as int));
    assert(x.subrange(0, x.len() as int) == x);
}

pub proof fn lemma_trim_end_idempotent(s: Seq<char>, lo: int, e: int)
    requires
        lo <= e,
    ensures
        trim_end(s, lo, trim_end(s, lo, e)) == trim_end(s, lo, e),
    decreases e - lo,
{
    lemma_last_index(s, '/', lo, e);
    if e > lo && is_skipped(s, comp_start(s, lo, e), e) {
        lemma_trim_end_idempotent(s, lo, comp_cut(s, lo, e));
    }
}

/// What `Path::parent` gives never ends in a separator or `.` segment.
pub proof fn lemma_parent_ends_clean(s: Seq<char>)
    requires
        spec_parent(s) is Some,
    ensures
        ends_clean(spec_parent(s)->0),
{
    let par = spec_parent(s)->0;
    if crate::unix_path::has_body_comp(s) {
        crate::unix_path::lemma_name_bounds(s);
        let bs = body_start(s);
        let ne = crate::unix_path::name_end(s);
        lemma_last_index(s, '/', bs, ne);
        let cut = comp_cut(s, bs, ne);
        lemma_trim_end(s, bs, cut);
        let pe = trim_end(s, bs, cut);
        lemma_trim_end_idempotent(s, bs, cut);
        assert(par == s.subrange(0, pe));
        if pe >= 2 {
            assert(par[0] == s[0] && par[1] == s[1]);
        } else if pe == 1 {
            assert(par[0] == s[0]);
            if bs == 0 {
                lemma_last_index(s, '/', 0, 1);
                crate::unix_path::lemma_trim_end_not_skipped(s, 0, cut);
            }
        }
        assert(body_start(par) == bs || pe == 0);
        if pe > 0 {
            lemma_trim_end_agree(par, s, bs, pe);
        }
    }
}

// ---------------------------------------------------------------------
// Joining onto any directory, compared as `std::path` compares paths
// ---------------------------------------------------------------------

/// A prefix of `x` that ends at its end, at the start of its body or at a
/// separator starts as `x` does.
pub proof fn lemma_prefix_start(x: Seq<char>, k: int)
    requires
        body_start(x) <= k <= x.len(),
        k == x.len() || k == body_start(x) || x[k] == '/',
    ensures
        has_root(x.subrange(0, k)) == has_root(x),
        has_cur_dir(x.subrange(0, k)) == has_cur_dir(x),
        body_start(x.subrange(0, k)) == body_start(x),
{
    let p = x.subrange(0, k);
    if k >= 2 {
        assert(p[0] == x[0] && p[1] == x[1]);
    } else if k == 1 {
        assert(p[0] == x[0]);
    }
}

/// The components of `x`, a separator and `y` are those of `x` followed by
/// those of the segments of `y`.
pub proof fn lemma_comps_join(x: Seq<char>, y: Seq<char>)
    requires
        x.len() > 0,
    ensures
        spec_components(x + seq!['/'] + y) == spec_components(x) + body_comps(y, 0),
{
    let z = x + seq!['/'] + y;
    let n = x.len() as int;
    assert(z.subrange(0, n) == x);
    assert(z[n] == '/');
    assert(body_start(z) <= n) by {
        assert(z[0] == x[0]);
    }
    lemma_prefix_start(z, n);
    crate::normal_form::lemma_comps_concat(x, y, body_start(x));
}

/// Dropping trailing separators and `.` segments keeps the components.
pub proof fn lemma_trim_keeps_components(x: Seq<char>, e: int)
    requires
        body_start(x) <= e <= x.len(),
        e == x.len() || e == body_start(x) || x[e] == '/',
    ensures
        spec_components(x.subrange(0, trim_end(x, body_start(x), e))) == spec_components(
            x.subrange(0, e),
        ),
    decreases e - body_start(x),
{
    let bs = body_start(x);
    let pe = x.subrange(0, e);
    lemma_trim_end(x, bs, e);
    lemma_prefix_start(x, e);
    if e > bs {
        lemma_last_index(x, '/', bs, e);
        let r = last_index(x, '/', bs, e);
        if is_skipped(x, r + 1, e) {
            let seg = x.subrange(r + 1, e);
            assert(body_comps(seg, 0) == Seq::<Comp>::empty()) by {
                lemma_next_index(seg, '/', 0);
                assert(next_index(seg, '/', 0) == seg.len()) by {
                    if next_index(seg, '/', 0) < seg.len() {
                        assert(seg[next_index(seg, '/', 0)] == x[r + 1 + next_index(seg, '/', 0)]);
                    }
                }
                if seg.len() == 1 {
                    assert(seg[0] == x[r + 1]);
                }
            }
            if r >= bs {
                assert(r >= 1) by {
                    if r == 0 {
                        assert(has_root(x));
                    }
                }
                let pr = x.subrange(0, r);
                assert(pe == pr + seq!['/'] + seg);
                lemma_comps_join(pr, seg);
                assert(spec_components(pe) == spec_components(pr));
                lemma_trim_keeps_components(x, r);
            } else {
                lemma_prefix_start(x, bs);
                let pb = x.subrange(0, bs);
                assert(body_comps(pb, bs) == Seq::<Comp>::empty());
                lemma_next_index(pe, '/', bs);
                assert(next_index(pe, '/', bs) == e) by {
                    if next_index(pe, '/', bs) < e {
                        assert(pe[next_index(pe, '/', bs)] == x[next_index(pe, '/', bs)]);
                    }
                }
                assert(seg_comp(pe, bs, e) == Seq::<Comp>::empty()) by {
                    if e == bs + 1 {
                        assert(pe[bs] == x[bs]);
                    }
                }
                assert(body_comps(pe, bs) == Seq::<Comp>::empty());
                assert(comp_cut(x, bs, e) == bs);
                assert(trim_end(x, bs, bs) == bs);
                assert(trim_end(x, bs, e) == bs);
            }
        }
    }
}

/// Joining a single-component path onto any directory gives the
/// directory's components followed by the component, and the result's
/// parent is equal, as a path, to the directory.
pub proof fn law_single_component_joins(dir: Seq<char>, s: Seq<char>)
    requires
        spec_is_single_component(s),
    ensures
        spec_components(spec_push(dir, s)) == spec_components(dir) + seq![
            Comp::Normal(single_name(s)),
        ],
        spec_file_name(spec_push(dir, s)) == Some(single_name(s)),
        spec_parent(spec_push(dir, s)) is Some,
        spec_components(spec_parent(spec_push(dir, s))->0) == spec_components(dir),
{
    lemma_single_shape(s);
    lemma_push_shape(dir, s);
    let j = next_index(s, '/', 0);
    let t = spec_push(dir, s);
    let o = t.len() - s.len();
    let p = o + j;
    let bs = body_start(t);
    let n = dir.len() as int;
    assert(bs <= o) by {
        if dir.len() == 0 {
            assert(bs == body_start(s));
        }
    }
    lemma_single_name_in(t, s, o);
    assert(body_comps(s, 0) == seq![Comp::Normal(single_name(s))]) by {
        assert(body_start(s) == 0);
    }
    assert(body_comps(Seq::<char>::empty(), 0) == Seq::<Comp>::empty());
    // the components of the joined path
    if n == 0 {
        assert(t == s);
        assert(spec_components(dir) == Seq::<Comp>::empty());
    } else if o == n + 1 {
        assert(t == dir + seq!['/'] + s);
        lemma_comps_join(dir, s);
    } else if n == 1 {
        assert(dir[0] == '/');
        assert(t == seq!['/'] + s);
        crate::normal_form::lemma_comps_shift(t, 1, 0);
        assert(t.subrange(1, t.len() as int) == s);
        assert(body_comps(dir, 1) == Seq::<Comp>::empty());
    } else {
        let x = dir.subrange(0, n - 1);
        assert(dir == x + seq!['/'] + Seq::<char>::empty());
        assert(t == x + seq!['/'] + s);
        lemma_comps_join(x, s);
        lemma_comps_join(x, Seq::<char>::empty());
    }
    // the parent
    lemma_last_index(t, '/', bs, p);
    let cut = comp_cut(t, bs, p);
    assert(cut == o - 1 || cut == bs);
    assert(cut == t.len() || cut == bs || t[cut] == '/');
    lemma_trim_keeps_components(t, cut);
    assert(t.subrange(0, crate::unix_path::parent_end(t)) == spec_parent(t)->0);
    if n == 0 {
        assert(cut == 0);
        assert(t.subrange(0, 0) == dir);
    } else if o == n + 1 {
        assert(cut == n);
        assert(t.subrange(0, n) == dir);
    } else if n == 1 {
        assert(cut == 1);
        assert(t.subrange(0, 1) == dir);
    } else {
        let x = dir.subrange(0, n - 1);
        assert(cut == n - 1);
        assert(t.subrange(0, n - 1) == x);
        lemma_comps_join(x, Seq::<char>::empty());
        assert(dir == x + seq!['/'] + Seq::<char>::empty());
    }
}

} // verus!
