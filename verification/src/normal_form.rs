//! The normal form of a path: its components written out again, so that
//! two paths have the same normal form exactly when `std::path` holds
//! them equal (equal components).
use crate::text::{chars_of, string_of};
use crate::unix_path::{
    body_comps, body_start, comps_view, has_cur_dir, has_root, is_dot_dot, is_plain_name,
    is_skipped, lemma_next_index, next_index, seg_comp, spec_components, Comp, PathComponent,
    UnixPath,
};
use vstd::prelude::*;

verus! {

// ---------------------------------------------------------------------
// Reading components from the front, over joined texts
// ---------------------------------------------------------------------

pub proof fn lemma_next_index_shift(s: Seq<char>, c: char, i: int, k: int)
    requires
        0 <= i,
        0 <= k,
        i + k <= s.len(),
    ensures
        next_index(s, c, i + k) == i + next_index(s.subrange(i, s.len() as int), c, k),
    decreases s.len() - i - k,
{
    if i + k < s.len() && s[i + k] != c {
        lemma_next_index_shift(s, c, i, k + 1);
    }
}

/// Reading components from index `i + k` of `s` is reading them from `k`
/// of the suffix of `s` that starts at `i`.
pub proof fn lemma_comps_shift(s: Seq<char>, i: int, k: int)
    requires
        0 <= i,
        0 <= k,
        i + k <= s.len(),
    ensures
        body_comps(s, i + k) == body_comps(s.subrange(i, s.len() as int), k),
    decreases s.len() - i - k,
{
    let u = s.subrange(i, s.len() as int);
    lemma_next_index_shift(s, '/', i, k);
    lemma_next_index(u, '/', k);
    let ju = next_index(u, '/', k);
    let j = i + ju;
    assert(seg_comp(s, i + k, j) == seg_comp(u, k, ju)) by {
        assert(s.subrange(i + k, j) == u.subrange(k, ju));
        if j > i + k {
            assert(s[i + k] == u[k]);
        }
        if j > i + k + 1 {
            assert(s[i + k + 1] == u[k + 1]);
        }
    }
    if ju < u.len() {
        lemma_comps_shift(s, i, ju + 1);
    }
}

pub proof fn lemma_next_index_prefix(x: Seq<char>, s: Seq<char>, c: char, i: int)
    requires
        0 <= i <= x.len() <= s.len(),
        forall|k: int| 0 <= k < x.len() ==> s[k] == x[k],
    ensures
        next_index(x, c, i) < x.len() ==> next_index(s, c, i) == next_index(x, c, i),
        next_index(x, c, i) == x.len() ==> next_index(s, c, i) == next_index(s, c, x.len() as int),
    decreases x.len() - i,
{
    if i < x.len() && x[i] != c {
        lemma_next_index_prefix(x, s, c, i + 1);
    }
}

/// Components of two texts joined by a separator are the components of
/// each.
pub proof fn lemma_comps_concat(x: Seq<char>, y: Seq<char>, i: int)
    requires
        0 <= i <= x.len(),
    ensures
        body_comps(x + seq!['/'] + y, i) == body_comps(x, i) + body_comps(y, 0),
    decreases x.len() - i,
{
    let s = x + seq!['/'] + y;
    assert forall|k: int| 0 <= k < x.len() implies s[k] == x[k] by {}
    lemma_next_index_prefix(x, s, '/', i);
    lemma_next_index(x, '/', i);
    let jx = next_index(x, '/', i);
    assert(seg_comp(s, i, jx) == seg_comp(x, i, jx)) by {
        assert(s.subrange(i, jx) == x.subrange(i, jx));
        if jx > i {
            assert(s[i] == x[i]);
        }
        if jx > i + 1 {
            assert(s[i + 1] == x[i + 1]);
        }
    }
    if jx < x.len() {
        lemma_comps_concat(x, y, jx + 1);
        assert(body_comps(s, i) == seg_comp(x, i, jx) + (body_comps(x, jx + 1) + body_comps(y, 0)));
    } else {
        assert(s[x.len() as int] == '/');
        assert(next_index(s, '/', x.len() as int) == x.len());
        lemma_comps_shift(s, x.len() as int + 1, 0);
        assert(s.subrange(x.len() as int + 1, s.len() as int) == y);
    }
}

// ---------------------------------------------------------------------
// Writing components out
// ---------------------------------------------------------------------

/// A component that can follow the root or a leading `.`: `..` or a
/// plain name.
pub open spec fn valid_body_comp(c: Comp) -> bool {
    match c {
        Comp::ParentDir => true,
        Comp::Normal(n) => is_plain_name(n),
        _ => false,
    }
}

pub open spec fn valid_body(cs: Seq<Comp>) -> bool {
    forall|i: int| 0 <= i < cs.len() ==> valid_body_comp(#[trigger] cs[i])
}

/// The text of one component.
pub open spec fn comp_text(c: Comp) -> Seq<char> {
    match c {
        Comp::RootDir => Seq::<char>::empty(),
        Comp::CurDir => seq!['.'],
        Comp::ParentDir => seq!['.', '.'],
        Comp::Normal(n) => n,
    }
}

/// The texts of `cs`, separated by `/`.
pub open spec fn join_body(cs: Seq<Comp>) -> Seq<char>
    decreases cs.len(),
{
    if cs.len() == 0 {
        Seq::<char>::empty()
    } else if cs.len() == 1 {
        comp_text(cs[0])
    } else {
        join_body(cs.drop_last()) + seq!['/'] + comp_text(cs.last())
    }
}

/// The text of a component list: the root as a leading `/`, a leading
/// `.` as `.` (followed by `/` when more follows), the rest joined by `/`.
pub open spec fn render(cs: Seq<Comp>) -> Seq<char> {
    if cs.len() > 0 && cs[0] is RootDir {
        seq!['/'] + join_body(cs.subrange(1, cs.len() as int))
    } else if cs.len() > 0 && cs[0] is CurDir {
        if cs.len() == 1 {
            seq!['.']
        } else {
            seq!['.', '/'] + join_body(cs.subrange(1, cs.len() as int))
        }
    } else {
        join_body(cs)
    }
}

/// The normal form of a path: its components written out.
pub open spec fn change_key(s: Seq<char>) -> Seq<char> {
    render(spec_components(s))
}

/// A text that is its own normal form.
pub open spec fn is_normal_text(s: Seq<char>) -> bool {
    change_key(s) == s
}

pub proof fn lemma_body_comps_valid(s: Seq<char>, i: int)
    requires
        0 <= i,
    ensures
        valid_body(body_comps(s, i)),
    decreases s.len() - i,
{
    if i <= s.len() {
        lemma_next_index(s, '/', i);
        let j = next_index(s, '/', i);
        let seg = s.subrange(i, j);
        if !is_skipped(s, i, j) && !is_dot_dot(s, i, j) {
            assert(!seg.contains('/')) by {
                assert forall|k: int| 0 <= k < seg.len() implies seg[k] != '/' by {
                    assert(seg[k] == s[i + k]);
                }
            }
            if seg.len() == 1 {
                assert(seg[0] == s[i]);
            }
            if seg.len() == 2 {
                assert(seg[0] == s[i] && seg[1] == s[i + 1]);
            }
            assert(valid_body_comp(Comp::Normal(seg)));
        }
        if j < s.len() {
            lemma_body_comps_valid(s, j + 1);
            let a = seg_comp(s, i, j);
            let b = body_comps(s, j + 1);
            assert forall|k: int| 0 <= k < (a + b).len() implies valid_body_comp(#[trigger] (a
                + b)[k]) by {
                if k >= a.len() {
                    assert((a + b)[k] == b[k - a.len()]);
                }
            }
        }
    }
}

/// The components of a path are a root or a leading `.` at most, first,
/// then `..` and plain names.
pub proof fn lemma_components_valid(s: Seq<char>)
    ensures
        ({
            let cs = spec_components(s);
            let start = if cs.len() > 0 && (cs[0] is RootDir || cs[0] is CurDir) {
                1int
            } else {
                0int
            };
            &&& valid_body(cs.subrange(start, cs.len() as int))
            &&& (has_root(s) || has_cur_dir(s)) == (start == 1)
            &&& cs.subrange(start, cs.len() as int) == body_comps(s, body_start(s))
        }),
{
    lemma_body_comps_valid(s, body_start(s));
    let cs = spec_components(s);
    let b = body_comps(s, body_start(s));
    if has_root(s) || has_cur_dir(s) {
        assert(cs.subrange(1, cs.len() as int) == b);
    } else {
        assert(cs == b);
        if b.len() > 0 {
            assert(valid_body_comp(b[0]));
        }
        assert(cs.subrange(0, cs.len() as int) == cs);
    }
}

pub proof fn lemma_single_text(c: Comp)
    requires
        valid_body_comp(c),
    ensures
        body_comps(comp_text(c), 0) == seq![c],
        comp_text(c).len() > 0,
        comp_text(c)[0] != '/',
        comp_text(c)[0] == '.' ==> comp_text(c).len() >= 2 && comp_text(c)[1] != '/',
{
    let t = comp_text(c);
    assert(!t.contains('/')) by {
        if let Comp::Normal(n) = c {
        } else {
            assert forall|k: int| 0 <= k < t.len() implies t[k] != '/' by {}
        }
    }
    lemma_next_index(t, '/', 0);
    assert(next_index(t, '/', 0) == t.len()) by {
        if next_index(t, '/', 0) < t.len() {
            assert(t[next_index(t, '/', 0)] == '/');
        }
    }
    assert(t.subrange(0, t.len() as int) == t);
    if t.len() >= 2 {
        assert(t[1] != '/');
    }
}

/// Reading components back from joined texts gives the components.
pub proof fn lemma_join_body_round_trip(cs: Seq<Comp>)
    requires
        valid_body(cs),
    ensures
        body_comps(join_body(cs), 0) == cs,
        cs.len() > 0 ==> join_body(cs).len() > 0 && join_body(cs)[0] != '/',
        cs.len() > 0 ==> (join_body(cs)[0] == '.' ==> join_body(cs).len() >= 2 && join_body(cs)[1]
            != '/'),
    decreases cs.len(),
{
    if cs.len() == 0 {
    } else if cs.len() == 1 {
        lemma_single_text(cs[0]);
    } else {
        let init = cs.drop_last();
        assert(valid_body(init)) by {
            assert forall|i: int| 0 <= i < init.len() implies valid_body_comp(#[trigger] init[i]) by {
                assert(init[i] == cs[i]);
            }
        }
        assert(valid_body_comp(cs.last()));
        lemma_join_body_round_trip(init);
        lemma_single_text(cs.last());
        lemma_comps_concat(join_body(init), comp_text(cs.last()), 0);
        assert(init + seq![cs.last()] == cs);
        let j = join_body(cs);
        assert(j[0] == join_body(init)[0]);
        if join_body(init).len() >= 2 {
            assert(j[1] == join_body(init)[1]);
        } else {
            assert(j[1] == '/');
        }
    }
}

/// The normal form of a component list reads back as that list.
pub proof fn lemma_render_round_trip(s: Seq<char>)
    ensures
        spec_components(change_key(s)) == spec_components(s),
        is_normal_text(change_key(s)),
{
    lemma_components_valid(s);
    let cs = spec_components(s);
    let t = change_key(s);
    if cs.len() > 0 && (cs[0] is RootDir || cs[0] is CurDir) {
        let rest = cs.subrange(1, cs.len() as int);
        lemma_join_body_round_trip(rest);
        let jb = join_body(rest);
        if cs[0] is RootDir {
            assert(t == seq!['/'] + jb);
            assert(has_root(t));
            lemma_comps_shift(t, 1, 0);
            assert(t.subrange(1, t.len() as int) == jb);
            assert(cs == seq![Comp::RootDir] + rest);
        } else if cs.len() == 1 {
            assert(t == seq!['.']);
            assert(has_cur_dir(t));
            assert(body_comps(t, 1) == Seq::<Comp>::empty());
            assert(cs == seq![Comp::CurDir]);
        } else {
            assert(t == seq!['.', '/'] + jb);
            assert(has_cur_dir(t));
            assert(body_comps(t, 1) == body_comps(t, 2)) by {
                assert(next_index(t, '/', 1) == 1);
                assert(seg_comp(t, 1, 1) == Seq::<Comp>::empty());
            }
            lemma_comps_shift(t, 2, 0);
            assert(t.subrange(2, t.len() as int) == jb);
            assert(cs == seq![Comp::CurDir] + rest);
        }
    } else {
        assert(cs.subrange(0, cs.len() as int) == cs);
        lemma_join_body_round_trip(cs);
        assert(t == join_body(cs));
        assert(!has_root(t) && !has_cur_dir(t));
    }
}

/// Two paths have the same normal form exactly when they have the same
/// components, which is when `std::path` holds them equal.
pub proof fn law_change_keys_compare_as_paths(a: Seq<char>, b: Seq<char>)
    ensures
        (change_key(a) == change_key(b)) == (spec_components(a) == spec_components(b)),
        is_normal_text(change_key(a)),
{
    lemma_render_round_trip(a);
    lemma_render_round_trip(b);
}

// ---------------------------------------------------------------------
// Computing the normal form
// ---------------------------------------------------------------------

fn push_comp_text(out: &mut Vec<char>, c: &PathComponent)
    ensures
        final(out)@ == old(out)@ + comp_text(c@),
{
    match c {
        PathComponent::RootDir => {
            assert(out@ + Seq::<char>::empty() == out@);
        },
        PathComponent::CurDir => {
            out.push('.');
        },
        PathComponent::ParentDir => {
            out.push('.');
            out.push('.');
        },
        PathComponent::Normal(n) => {
            crate::unix_path::append_chars(out, &chars_of(n.as_str()));
        },
    }
}

/// The normal form of `path`.
pub fn normal_form(path: &UnixPath) -> (r: String)
    ensures
        r@ == change_key(path@),
{
    let comps = path.components();
    let ghost cs = comps_view(comps@);
    let n = comps.len();
    assert(cs.len() == n);
    let mut out: Vec<char> = Vec::new();
    let mut start: usize = 0;
    if n > 0 {
        match &comps[0] {
            PathComponent::RootDir => {
                out.push('/');
                start = 1;
            },
            PathComponent::CurDir => {
                out.push('.');
                if n > 1 {
                    out.push('/');
                }
                start = 1;
            },
            _ => {},
        }
    }
    let ghost prefix = out@;
    assert(start == 1 ==> cs[0] is RootDir || cs[0] is CurDir);
    assert(start == 0 ==> n == 0 || !(cs[0] is RootDir || cs[0] is CurDir));
    let mut k = start;
    assert(join_body(cs.subrange(start as int, start as int)) == Seq::<char>::empty());
    while k < n
        invariant
            start <= k <= n,
            n == comps@.len(),
            cs == comps_view(comps@),
            out@ == prefix + join_body(cs.subrange(start as int, k as int)),
        decreases n - k,
    {
        let ghost before = cs.subrange(start as int, k as int);
        let ghost after = cs.subrange(start as int, k as int + 1);
        assert(after.drop_last() == before);
        assert(after.last() == comps@[k as int]@);
        if k > start {
            out.push('/');
        }
        push_comp_text(&mut out, &comps[k]);
        k = k + 1;
    }
    assert(cs.subrange(start as int, n as int) == cs.subrange(start as int, cs.len() as int));
    if start == 0 {
        assert(cs.subrange(0, cs.len() as int) == cs);
    }
    if start == 1 && n == 1 {
        assert(join_body(cs.subrange(1, 1)) == Seq::<char>::empty());
    }
    string_of(&out)
}

} // verus!
