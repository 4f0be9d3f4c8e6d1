//! A model of Unix filesystem paths, as `std::path` reads them on Unix.
//! Only Unix rules are modelled: `/` is the one separator and there are no
//! prefixes. On Windows `std::path` also splits on `\` and reads drive,
//! UNC and verbatim prefixes, which this model does not; the crate is meant
//! for Unix targets only.
//!
//! A path is its text: a sequence of characters in which `/` separates
//! components. The spec functions here describe how `std::path::Path`
//! splits a path into components, and what `parent`, `file_name`,
//! `extension`, `push`, `set_extension`, `add_extension` and
//! `set_file_name` make of it. `UnixPath` carries out each of them and
//! is proved to agree with its spec.
use vstd::prelude::*;
use crate::text::{chars_of, string_of};

verus! {

// ---------------------------------------------------------------------
// Reading positions in a path text
// ---------------------------------------------------------------------

/// The path starts at the root directory.
pub open spec fn has_root(s: Seq<char>) -> bool {
    s.len() > 0 && s[0] == '/'
}

/// A relative path whose first component is `.`; std keeps this one
/// `.` as a `CurDir` component.
pub open spec fn has_cur_dir(s: Seq<char>) -> bool {
    !has_root(s) && s.len() > 0 && s[0] == '.' && (s.len() == 1 || s[1] == '/')
}

/// Where the components after the root (or the leading `.`) begin.
pub open spec fn body_start(s: Seq<char>) -> int {
    if has_root(s) || has_cur_dir(s) {
        1
    } else {
        0
    }
}

/// The last index in `[lo, end)` at which `s` holds `c`, or `lo - 1` when
/// there is none.
pub open spec fn last_index(s: Seq<char>, c: char, lo: int, end: int) -> int
    decreases end - lo,
{
    if end <= lo {
        lo - 1
    } else if s[end - 1] == c {
        end - 1
    } else {
        last_index(s, c, lo, end - 1)
    }
}

/// The first index in `[i, s.len())` at which `s` holds `c`, or `s.len()`.
pub open spec fn next_index(s: Seq<char>, c: char, i: int) -> int
    decreases s.len() - i,
{
    if i >= s.len() {
        s.len() as int
    } else if s[i] == c {
        i
    } else {
        next_index(s, c, i + 1)
    }
}

/// Start of the component that ends at `end`, looking no further left than `lo`.
pub open spec fn comp_start(s: Seq<char>, lo: int, end: int) -> int {
    last_index(s, '/', lo, end) + 1
}

/// Where the text is cut when the component ending at `end` is removed
/// together with the separator before it.
pub open spec fn comp_cut(s: Seq<char>, lo: int, end: int) -> int {
    let i = last_index(s, '/', lo, end);
    if i < lo {
        lo
    } else {
        i
    }
}

/// `s[st..e]` is empty or `.`: std drops such components.
pub open spec fn is_skipped(s: Seq<char>, st: int, e: int) -> bool {
    e == st || (e == st + 1 && s[st] == '.')
}

/// `s[st..e]` is `..`.
pub open spec fn is_dot_dot(s: Seq<char>, st: int, e: int) -> bool {
    e == st + 2 && s[st] == '.' && s[st + 1] == '.'
}

pub proof fn lemma_last_index(s: Seq<char>, c: char, lo: int, end: int)
    requires
        lo <= end,
    ensures
        lo - 1 <= last_index(s, c, lo, end) < end,
        last_index(s, c, lo, end) >= lo ==> s[last_index(s, c, lo, end)] == c,
        forall|k: int| last_index(s, c, lo, end) < k < end ==> s[k] != c,
    decreases end - lo,
{
    if end > lo && s[end - 1] != c {
        lemma_last_index(s, c, lo, end - 1);
    }
}

pub proof fn lemma_next_index(s: Seq<char>, c: char, i: int)
    requires
        0 <= i,
    ensures
        i <= next_index(s, c, i) <= s.len() || (i > s.len() && next_index(s, c, i) == s.len()),
        next_index(s, c, i) < s.len() ==> s[next_index(s, c, i)] == c,
        forall|k: int| i <= k < next_index(s, c, i) ==> s[k] != c,
    decreases s.len() - i,
{
    if i < s.len() && s[i] != c {
        lemma_next_index(s, c, i + 1);
    }
}

/// The end of the text once trailing empty and `.` components of `s[lo..end]`
/// are dropped (what std's `Components::trim_right` keeps).
pub open spec fn trim_end(s: Seq<char>, lo: int, end: int) -> int
    decreases end - lo,
{
    if end <= lo {
        end
    } else if is_skipped(s, comp_start(s, lo, end), end) {
        proof {
            lemma_last_index(s, '/', lo, end);
        }
        trim_end(s, lo, comp_cut(s, lo, end))
    } else {
        end
    }
}

pub proof fn lemma_trim_end(s: Seq<char>, lo: int, end: int)
    requires
        lo <= end,
    ensures
        lo <= trim_end(s, lo, end) <= end,
    decreases end - lo,
{
    if end > lo {
        lemma_last_index(s, '/', lo, end);
        if is_skipped(s, comp_start(s, lo, end), end) {
            lemma_trim_end(s, lo, comp_cut(s, lo, end));
        }
    }
}

/// End of the last component of `s` (after the root or leading `.`).
pub open spec fn name_end(s: Seq<char>) -> int {
    trim_end(s, body_start(s), s.len() as int)
}

/// Start of the last component of `s`.
pub open spec fn name_start(s: Seq<char>) -> int {
    comp_start(s, body_start(s), name_end(s))
}

/// `s` has a component after its root or leading `.`.
pub open spec fn has_body_comp(s: Seq<char>) -> bool {
    name_end(s) > body_start(s)
}

pub proof fn lemma_name_bounds(s: Seq<char>)
    ensures
        0 <= body_start(s) <= name_start(s) <= name_end(s) <= s.len(),
        body_start(s) <= s.len(),
        has_body_comp(s) ==> name_start(s) < name_end(s),
        has_body_comp(s) ==> !is_skipped(s, name_start(s), name_end(s)),
        name_start(s) > body_start(s) ==> s[name_start(s) - 1] == '/',
        forall|k: int| name_start(s) <= k < name_end(s) ==> s[k] != '/',
{
    let bs = body_start(s);
    lemma_trim_end(s, bs, s.len() as int);
    lemma_last_index(s, '/', bs, name_end(s));
    if has_body_comp(s) {
        lemma_trim_end_not_skipped(s, bs, s.len() as int);
    }
}

pub proof fn lemma_trim_end_not_skipped(s: Seq<char>, lo: int, end: int)
    requires
        lo <= end,
        trim_end(s, lo, end) > lo,
    ensures
        !is_skipped(s, comp_start(s, lo, trim_end(s, lo, end)), trim_end(s, lo, end)),
    decreases end - lo,
{
    lemma_last_index(s, '/', lo, end);
    if end > lo && is_skipped(s, comp_start(s, lo, end), end) {
        lemma_trim_end_not_skipped(s, lo, comp_cut(s, lo, end));
    }
}

// ---------------------------------------------------------------------
// What std::path computes, on Unix
// ---------------------------------------------------------------------

/// `Path::file_name`: the last component, when it is a normal one.
pub open spec fn spec_file_name(s: Seq<char>) -> Option<Seq<char>> {
    if has_body_comp(s) && !is_dot_dot(s, name_start(s), name_end(s)) {
        Some(s.subrange(name_start(s), name_end(s)))
    } else {
        None
    }
}

/// Length of the text that `Path::parent` keeps when the last component
/// is a body component.
pub open spec fn parent_end(s: Seq<char>) -> int {
    trim_end(s, body_start(s), comp_cut(s, body_start(s), name_end(s)))
}

/// `Path::parent`: the path without its last component; `None` for the
/// root and for the empty path.
pub open spec fn spec_parent(s: Seq<char>) -> Option<Seq<char>> {
    if has_body_comp(s) {
        Some(s.subrange(0, parent_end(s)))
    } else if has_cur_dir(s) {
        Some(Seq::<char>::empty())
    } else {
        None
    }
}

/// Index of the dot that starts the extension of the file name, if the
/// file name has an extension (a `.` after its first character).
pub open spec fn ext_dot(s: Seq<char>) -> int {
    last_index(s, '.', name_start(s), name_end(s))
}

pub open spec fn has_extension(s: Seq<char>) -> bool {
    spec_file_name(s) is Some && ext_dot(s) > name_start(s)
}

/// `Path::extension`.
pub open spec fn spec_extension(s: Seq<char>) -> Option<Seq<char>> {
    if has_extension(s) {
        Some(s.subrange(ext_dot(s) + 1, name_end(s)))
    } else {
        None
    }
}

/// End of the file stem (the file name without its extension).
pub open spec fn stem_end(s: Seq<char>) -> int {
    if has_extension(s) {
        ext_dot(s)
    } else {
        name_end(s)
    }
}

/// `PathBuf::set_extension`.
pub open spec fn spec_set_extension(s: Seq<char>, ext: Seq<char>) -> Seq<char> {
    if spec_file_name(s) is Some {
        if ext.len() == 0 {
            s.subrange(0, stem_end(s))
        } else {
            s.subrange(0, stem_end(s)) + seq!['.'] + ext
        }
    } else {
        s
    }
}

/// `PathBuf::add_extension`.
pub open spec fn spec_add_extension(s: Seq<char>, ext: Seq<char>) -> Seq<char> {
    if spec_file_name(s) is Some && ext.len() > 0 {
        s.subrange(0, name_end(s)) + seq!['.'] + ext
    } else {
        s
    }
}

/// `PathBuf::push` (and so `Path::join`).
pub open spec fn spec_push(s: Seq<char>, p: Seq<char>) -> Seq<char> {
    if has_root(p) {
        p
    } else if s.len() > 0 && s.last() != '/' {
        s + seq!['/'] + p
    } else {
        s + p
    }
}

/// `PathBuf::pop` leaves the parent.
pub open spec fn spec_pop(s: Seq<char>) -> Seq<char> {
    match spec_parent(s) {
        Some(p) => p,
        None => s,
    }
}

/// `PathBuf::set_file_name`.
pub open spec fn spec_set_file_name(s: Seq<char>, name: Seq<char>) -> Seq<char> {
    if spec_file_name(s) is Some {
        spec_push(spec_pop(s), name)
    } else {
        spec_push(s, name)
    }
}

// ---------------------------------------------------------------------
// Executable paths
// ---------------------------------------------------------------------

/// A Unix path, held as its characters.
pub struct UnixPath {
    pub chars: Vec<char>,
}

impl View for UnixPath {
    type V = Seq<char>;

    open spec fn view(&self) -> Seq<char> {
        self.chars@
    }
}

/// `v[lo..hi]` as a new vector.
pub(crate) fn copy_range(v: &Vec<char>, lo: usize, hi: usize) -> (r: Vec<char>)
    requires
        lo <= hi <= v.len(),
    ensures
        r@ == v@.subrange(lo as int, hi as int),
{
    let mut r: Vec<char> = Vec::new();
    let mut i = lo;
    while i < hi
        invariant
            lo <= i <= hi <= v.len(),
            r@ == v@.subrange(lo as int, i as int),
        decreases hi - i,
    {
        r.push(v[i]);
        assert(r@ == v@.subrange(lo as int, i as int + 1));
        i = i + 1;
    }
    r
}

/// Appends all of `src` to `dst`.
pub(crate) fn append_chars(dst: &mut Vec<char>, src: &Vec<char>)
    ensures
        final(dst)@ == old(dst)@ + src@,
{
    let mut i: usize = 0;
    while i < src.len()
        invariant
            i <= src.len(),
            dst@ == old(dst)@ + src@.subrange(0, i as int),
        decreases src.len() - i,
    {
        dst.push(src[i]);
        assert(src@.subrange(0, i as int + 1) == src@.subrange(0, i as int).push(src@[i as int]));
        i = i + 1;
    }
    assert(src@.subrange(0, src@.len() as int) == src@);
}

/// The last index of `c` in `v[lo..end]`, as `last_index` says.
fn find_last(v: &Vec<char>, c: char, lo: usize, end: usize) -> (r: Option<usize>)
    requires
        lo <= end <= v.len(),
    ensures
        match r {
            Some(k) => k as int == last_index(v@, c, lo as int, end as int) && lo <= k < end,
            None => last_index(v@, c, lo as int, end as int) == lo - 1,
        },
{
    let mut e = end;
    while e > lo
        invariant
            lo <= e <= end <= v.len(),
            last_index(v@, c, lo as int, e as int) == last_index(v@, c, lo as int, end as int),
        decreases e - lo,
    {
        if v[e - 1] == c {
            return Some(e - 1);
        }
        e = e - 1;
    }
    None
}

/// Start of the component that ends at `end`.
fn find_comp_start(v: &Vec<char>, lo: usize, end: usize) -> (r: usize)
    requires
        lo <= end <= v.len(),
    ensures
        r as int == comp_start(v@, lo as int, end as int),
        lo <= r <= end,
{
    proof {
        lemma_last_index(v@, '/', lo as int, end as int);
    }
    match find_last(v, '/', lo, end) {
        Some(k) => k + 1,
        None => lo,
    }
}

/// Where the component ending at `end` is cut off.
fn find_comp_cut(v: &Vec<char>, lo: usize, end: usize) -> (r: usize)
    requires
        lo <= end <= v.len(),
    ensures
        r as int == comp_cut(v@, lo as int, end as int),
        lo <= r <= end,
        lo < end ==> r < end,
{
    proof {
        lemma_last_index(v@, '/', lo as int, end as int);
    }
    match find_last(v, '/', lo, end) {
        Some(k) => k,
        None => lo,
    }
}

fn skipped(v: &Vec<char>, st: usize, e: usize) -> (r: bool)
    requires
        st <= e <= v.len(),
    ensures
        r == is_skipped(v@, st as int, e as int),
{
    e == st || (e == st + 1 && v[st] == '.')
}

fn dot_dot(v: &Vec<char>, st: usize, e: usize) -> (r: bool)
    requires
        st <= e <= v.len(),
    ensures
        r == is_dot_dot(v@, st as int, e as int),
{
    e - st == 2 && v[st] == '.' && v[st + 1] == '.'
}

fn find_trim_end(v: &Vec<char>, lo: usize, end: usize) -> (r: usize)
    requires
        lo <= end <= v.len(),
    ensures
        r as int == trim_end(v@, lo as int, end as int),
        lo <= r <= end,
{
    let mut e = end;
    loop
        invariant
            lo <= e <= end <= v.len(),
            trim_end(v@, lo as int, e as int) == trim_end(v@, lo as int, end as int),
        decreases e - lo,
    {
        if e <= lo {
            return e;
        }
        let st = find_comp_start(v, lo, e);
        if skipped(v, st, e) {
            e = find_comp_cut(v, lo, e);
        } else {
            return e;
        }
    }
}

impl UnixPath {
    /// The path whose text is `s`.
    pub fn new(s: &str) -> (p: Self)
        ensures
            p@ == s@,
    {
        UnixPath { chars: chars_of(s) }
    }

    /// The text of the path.
    pub fn as_string(&self) -> (s: String)
        ensures
            s@ == self@,
    {
        string_of(&self.chars)
    }

    /// A copy of the path.
    pub fn duplicate(&self) -> (p: Self)
        ensures
            p@ == self@,
    {
        let c = copy_range(&self.chars, 0, self.chars.len());
        assert(self@.subrange(0, self@.len() as int) == self@);
        UnixPath { chars: c }
    }

    /// `Path::has_root`.
    pub fn has_root(&self) -> (r: bool)
        ensures
            r == has_root(self@),
    {
        self.chars.len() > 0 && self.chars[0] == '/'
    }

    fn body_start(&self) -> (r: usize)
        ensures
            r as int == body_start(self@),
            r <= self@.len(),
    {
        let v = &self.chars;
        if v.len() > 0 && (v[0] == '/' || (v[0] == '.' && (v.len() == 1 || v[1] == '/'))) {
            1
        } else {
            0
        }
    }

    /// Where the last component begins and ends, when there is one after
    /// the root or leading `.`.
    fn last_comp_span(&self) -> (r: Option<(usize, usize)>)
        ensures
            match r {
                Some((a, b)) => has_body_comp(self@) && a as int == name_start(self@) && b as int
                    == name_end(self@),
                None => !has_body_comp(self@),
            },
    {
        proof {
            lemma_name_bounds(self@);
        }
        let bs = self.body_start();
        let e = find_trim_end(&self.chars, bs, self.chars.len());
        if e > bs {
            Some((find_comp_start(&self.chars, bs, e), e))
        } else {
            None
        }
    }

    /// Where the file name begins and ends.
    fn file_name_span(&self) -> (r: Option<(usize, usize)>)
        ensures
            match r {
                Some((a, b)) => spec_file_name(self@) is Some && a as int == name_start(self@)
                    && b as int == name_end(self@),
                None => spec_file_name(self@) is None,
            },
    {
        proof {
            lemma_name_bounds(self@);
        }
        match self.last_comp_span() {
            Some((a, b)) => {
                if dot_dot(&self.chars, a, b) {
                    None
                } else {
                    Some((a, b))
                }
            },
            None => None,
        }
    }

    /// `Path::file_name`.
    pub fn file_name(&self) -> (r: Option<String>)
        ensures
            match r {
                Some(n) => spec_file_name(self@) == Some(n@),
                None => spec_file_name(self@) is None,
            },
    {
        proof {
            lemma_name_bounds(self@);
        }
        match self.file_name_span() {
            Some((a, b)) => Some(crate::text::string_of_range(&self.chars, a, b)),
            None => None,
        }
    }

    /// `Path::parent`.
    pub fn parent(&self) -> (r: Option<UnixPath>)
        ensures
            match r {
                Some(p) => spec_parent(self@) == Some(p@),
                None => spec_parent(self@) is None,
            },
    {
        proof {
            lemma_name_bounds(self@);
        }
        let bs = self.body_start();
        match self.last_comp_span() {
            Some((_a, b)) => {
                let cut = find_comp_cut(&self.chars, bs, b);
                let e = find_trim_end(&self.chars, bs, cut);
                Some(UnixPath { chars: copy_range(&self.chars, 0, e) })
            },
            None => {
                if bs == 1 && self.chars[0] == '.' {
                    Some(UnixPath { chars: Vec::new() })
                } else {
                    None
                }
            },
        }
    }

    /// Position of the dot that starts the extension, if any.
    fn extension_dot(&self) -> (r: Option<usize>)
        ensures
            match r {
                Some(k) => has_extension(self@) && k as int == ext_dot(self@),
                None => !has_extension(self@),
            },
    {
        proof {
            lemma_name_bounds(self@);
        }
        match self.file_name_span() {
            Some((a, b)) => {
                proof {
                    lemma_last_index(self@, '.', a as int, b as int);
                }
                match find_last(&self.chars, '.', a, b) {
                    Some(k) => if k > a {
                        Some(k)
                    } else {
                        None
                    },
                    None => None,
                }
            },
            None => None,
        }
    }

    /// `Path::extension`.
    pub fn extension(&self) -> (r: Option<String>)
        ensures
            match r {
                Some(e) => spec_extension(self@) == Some(e@),
                None => spec_extension(self@) is None,
            },
    {
        proof {
            lemma_name_bounds(self@);
            lemma_last_index(self@, '.', name_start(self@), name_end(self@));
        }
        match self.extension_dot() {
            Some(k) => {
                let b = self.last_comp_span().unwrap().1;
                Some(crate::text::string_of_range(&self.chars, k + 1, b))
            },
            None => None,
        }
    }

    /// `PathBuf::set_extension`. std panics on an extension that holds a
    /// separator, so such extensions are excluded.
    pub fn set_extension(&mut self, ext: &str) -> (r: bool)
        requires
            !ext@.contains('/'),
        ensures
            final(self)@ == spec_set_extension(old(self)@, ext@),
            r == (spec_file_name(old(self)@) is Some),
    {
        proof {
            lemma_name_bounds(self@);
            lemma_last_index(self@, '.', name_start(self@), name_end(self@));
        }
        match self.file_name_span() {
            Some((_a, b)) => {
                let end = match self.extension_dot() {
                    Some(k) => k,
                    None => b,
                };
                self.chars.truncate(end);
                let e = chars_of(ext);
                if e.len() > 0 {
                    self.chars.push('.');
                    append_chars(&mut self.chars, &e);
                }
                true
            },
            None => false,
        }
    }

    /// `PathBuf::add_extension`, for an extension without separators.
    pub fn add_extension(&mut self, ext: &str) -> (r: bool)
        requires
            !ext@.contains('/'),
        ensures
            final(self)@ == spec_add_extension(old(self)@, ext@),
            r == (spec_file_name(old(self)@) is Some),
    {
        proof {
            lemma_name_bounds(self@);
        }
        match self.file_name_span() {
            Some((_a, b)) => {
                let e = chars_of(ext);
                if e.len() > 0 {
                    self.chars.truncate(b);
                    self.chars.push('.');
                    append_chars(&mut self.chars, &e);
                }
                true
            },
            None => false,
        }
    }

    /// `PathBuf::push`.
    pub fn push(&mut self, p: &UnixPath)
        ensures
            final(self)@ == spec_push(old(self)@, p@),
    {
        if p.has_root() {
            self.chars = copy_range(&p.chars, 0, p.chars.len());
            assert(p@.subrange(0, p@.len() as int) == p@);
        } else {
            let n = self.chars.len();
            if n > 0 && self.chars[n - 1] != '/' {
                self.chars.push('/');
            }
            append_chars(&mut self.chars, &p.chars);
        }
    }

    /// `Path::join`.
    pub fn join(&self, p: &UnixPath) -> (r: UnixPath)
        ensures
            r@ == spec_push(self@, p@),
    {
        let mut r = self.duplicate();
        r.push(p);
        r
    }

    /// `PathBuf::pop`: truncates to the parent; false when there is none.
    pub fn pop(&mut self) -> (r: bool)
        ensures
            final(self)@ == spec_pop(old(self)@),
            r == (spec_parent(old(self)@) is Some),
    {
        proof {
            lemma_name_bounds(self@);
        }
        match self.parent() {
            Some(p) => {
                self.chars = p.chars;
                true
            },
            None => false,
        }
    }

    /// `PathBuf::set_file_name`.
    pub fn set_file_name(&mut self, name: &str)
        ensures
            final(self)@ == spec_set_file_name(old(self)@, name@),
    {
        if self.file_name_span().is_some() {
            self.pop();
        }
        let n = UnixPath::new(name);
        self.push(&n);
    }
}

// ---------------------------------------------------------------------
// Components, read from the front
// ---------------------------------------------------------------------

/// A component of a path, as `std::path::Component` names it on Unix.
pub enum Comp {
    RootDir,
    CurDir,
    ParentDir,
    Normal(Seq<char>),
}

/// The component that the segment `s[i..j]` (between separators) gives:
/// none for an empty segment or `.`.
pub open spec fn seg_comp(s: Seq<char>, i: int, j: int) -> Seq<Comp> {
    if is_skipped(s, i, j) {
        Seq::<Comp>::empty()
    } else if is_dot_dot(s, i, j) {
        seq![Comp::ParentDir]
    } else {
        seq![Comp::Normal(s.subrange(i, j))]
    }
}

/// The components of the segments of `s` from index `i` on.
pub open spec fn body_comps(s: Seq<char>, i: int) -> Seq<Comp>
    decreases s.len() - i,
{
    if i < 0 || i > s.len() {
        Seq::<Comp>::empty()
    } else {
        let j = next_index(s, '/', i);
        if j < s.len() {
            proof {
                lemma_next_index(s, '/', i);
            }
            seg_comp(s, i, j) + body_comps(s, j + 1)
        } else {
            seg_comp(s, i, j)
        }
    }
}

/// `Path::components`: a root or a leading `.` first, then the segments
/// that are neither empty nor `.`.
pub open spec fn spec_components(s: Seq<char>) -> Seq<Comp> {
    let head = if has_root(s) {
        seq![Comp::RootDir]
    } else if has_cur_dir(s) {
        seq![Comp::CurDir]
    } else {
        Seq::<Comp>::empty()
    };
    head + body_comps(s, body_start(s))
}

/// A path component, as the executable code hands it out.
pub enum PathComponent {
    RootDir,
    CurDir,
    ParentDir,
    Normal(String),
}

impl View for PathComponent {
    type V = Comp;

    open spec fn view(&self) -> Comp {
        match self {
            PathComponent::RootDir => Comp::RootDir,
            PathComponent::CurDir => Comp::CurDir,
            PathComponent::ParentDir => Comp::ParentDir,
            PathComponent::Normal(n) => Comp::Normal(n@),
        }
    }
}

pub open spec fn comps_view(v: Seq<PathComponent>) -> Seq<Comp> {
    v.map_values(|c: PathComponent| c@)
}

/// The first index of `c` in `v[i..]`, or `v.len()`.
fn find_next(v: &Vec<char>, c: char, i: usize) -> (r: usize)
    requires
        i <= v.len(),
    ensures
        r as int == next_index(v@, c, i as int),
        i <= r <= v.len(),
{
    proof {
        lemma_next_index(v@, c, i as int);
    }
    let mut k = i;
    while k < v.len()
        invariant
            i <= k <= v.len(),
            next_index(v@, c, k as int) == next_index(v@, c, i as int),
        decreases v.len() - k,
    {
        if v[k] == c {
            return k;
        }
        k = k + 1;
    }
    k
}

fn push_segment(acc: &mut Vec<PathComponent>, v: &Vec<char>, i: usize, j: usize)
    requires
        i <= j <= v.len(),
    ensures
        comps_view(final(acc)@) == comps_view(old(acc)@) + seg_comp(v@, i as int, j as int),
{
    if skipped(v, i, j) {
        assert(comps_view(acc@) == comps_view(acc@) + Seq::<Comp>::empty());
    } else if dot_dot(v, i, j) {
        acc.push(PathComponent::ParentDir);
        assert(comps_view(acc@) == comps_view(old(acc)@) + seq![Comp::ParentDir]);
    } else {
        let n = crate::text::string_of_range(v, i, j);
        acc.push(PathComponent::Normal(n));
        assert(comps_view(acc@) == comps_view(old(acc)@) + seq![
            Comp::Normal(v@.subrange(i as int, j as int)),
        ]);
    }
}

impl UnixPath {
    /// `Path::components`.
    pub fn components(&self) -> (r: Vec<PathComponent>)
        ensures
            comps_view(r@) == spec_components(self@),
    {
        let v = &self.chars;
        let len = v.len();
        let bs = self.body_start();
        let mut acc: Vec<PathComponent> = Vec::new();
        if bs == 1 {
            if v[0] == '/' {
                acc.push(PathComponent::RootDir);
            } else {
                acc.push(PathComponent::CurDir);
            }
        }
        let ghost head = comps_view(acc@);
        assert(head == spec_components(self@).subrange(0, bs as int)) by {
            assert(comps_view(acc@).len() == bs);
        }
        assert(spec_components(self@) == head + body_comps(self@, bs as int));
        let mut i = bs;
        let mut done = false;
        while !done
            invariant
                len == v.len(),
                i <= len,
                comps_view(acc@) + (if done {
                    Seq::<Comp>::empty()
                } else {
                    body_comps(v@, i as int)
                }) == spec_components(v@),
            decreases len + 1 - i + (if done {
                0int
            } else {
                1int
            }),
        {
            let j = find_next(v, '/', i);
            let ghost before = comps_view(acc@);
            push_segment(&mut acc, v, i, j);
            if j < len {
                assert(body_comps(v@, i as int) == seg_comp(v@, i as int, j as int) + body_comps(
                    v@,
                    j + 1,
                ));
                assert(comps_view(acc@) + body_comps(v@, j + 1) == before + body_comps(
                    v@,
                    i as int,
                ));
                i = j + 1;
            } else {
                assert(body_comps(v@, i as int) == seg_comp(v@, i as int, j as int));
                assert(comps_view(acc@) + Seq::<Comp>::empty() == before + body_comps(
                    v@,
                    i as int,
                ));
                done = true;
            }
        }
        assert(comps_view(acc@) + Seq::<Comp>::empty() == comps_view(acc@));
        acc
    }
}

// ---------------------------------------------------------------------
// Facts about paths that end in a plain name
// ---------------------------------------------------------------------

/// `s[lo..end]` holds no `c`.
pub open spec fn free_of(s: Seq<char>, c: char, lo: int, end: int) -> bool {
    forall|i: int| lo <= i < end ==> s[i] != c
}

/// `s` ends, from index `k` on, in a segment that std reads as a normal
/// component: it follows a separator (or starts the text), holds no
/// separator, and is neither empty, `.` nor `..`.
pub open spec fn ends_in_name_at(s: Seq<char>, k: int) -> bool {
    &&& 0 <= k < s.len()
    &&& (k == 0 || s[k - 1] == '/')
    &&& free_of(s, '/', k, s.len() as int)
    &&& !is_skipped(s, k, s.len() as int)
    &&& !is_dot_dot(s, k, s.len() as int)
}

/// A name that can stand as the last segment of a path.
pub open spec fn is_plain_name(x: Seq<char>) -> bool {
    &&& x.len() > 0
    &&& !x.contains('/')
    &&& !(x.len() == 1 && x[0] == '.')
    &&& !(x.len() == 2 && x[0] == '.' && x[1] == '.')
}

pub proof fn lemma_last_index_agree(s1: Seq<char>, s2: Seq<char>, c: char, lo: int, end: int)
    requires
        lo <= end <= s1.len(),
        end <= s2.len(),
        forall|i: int| lo <= i < end ==> s1[i] == s2[i],
    ensures
        last_index(s1, c, lo, end) == last_index(s2, c, lo, end),
    decreases end - lo,
{
    if end > lo {
        lemma_last_index_agree(s1, s2, c, lo, end - 1);
    }
}

pub proof fn lemma_trim_end_agree(s1: Seq<char>, s2: Seq<char>, lo: int, end: int)
    requires
        lo <= end <= s1.len(),
        end <= s2.len(),
        forall|i: int| lo <= i < end ==> s1[i] == s2[i],
    ensures
        trim_end(s1, lo, end) == trim_end(s2, lo, end),
    decreases end - lo,
{
    if end > lo {
        lemma_last_index_agree(s1, s2, '/', lo, end);
        lemma_last_index(s1, '/', lo, end);
        if is_skipped(s1, comp_start(s1, lo, end), end) {
            lemma_trim_end_agree(s1, s2, lo, comp_cut(s1, lo, end));
        }
    }
}

/// When a path ends in a normal segment at `k`, that segment is its file
/// name.
pub proof fn lemma_name_tail(t: Seq<char>, k: int)
    requires
        ends_in_name_at(t, k),
    ensures
        body_start(t) <= k,
        name_end(t) == t.len(),
        name_start(t) == k,
        has_body_comp(t),
        spec_file_name(t) == Some(t.subrange(k, t.len() as int)),
{
    let n = t.len() as int;
    if k == 0 {
        assert(t[0] != '/');
        if n > 1 {
            assert(t[1] != '/');
        }
    }
    let bs = body_start(t);
    assert(bs <= k);
    lemma_last_index(t, '/', bs, n);
    let r = last_index(t, '/', bs, n);
    if k - 1 >= bs {
        assert(r == k - 1) by {
            if r < k - 1 {
                assert(r < k - 1 < n);
            }
            if r >= k {
                assert(t[r] == '/');
            }
        }
    } else {
        assert(r < bs) by {
            if r >= bs {
                assert(t[r] == '/');
            }
        }
    }
    assert(comp_start(t, bs, n) == k);
}

/// Pushing a plain name onto any path gives a path that ends in that name.
pub proof fn lemma_push_name(par: Seq<char>, x: Seq<char>)
    requires
        is_plain_name(x),
    ensures
        ends_in_name_at(spec_push(par, x), spec_push(par, x).len() - x.len()),
        spec_push(par, x).subrange(spec_push(par, x).len() - x.len(), spec_push(par, x).len() as int)
            == x,
        spec_file_name(spec_push(par, x)) == Some(x),
        name_end(spec_push(par, x)) == spec_push(par, x).len(),
{
    let t = spec_push(par, x);
    let k = t.len() - x.len();
    assert(x[0] != '/');
    assert(!has_root(x));
    assert(t.subrange(k, t.len() as int) == x);
    assert forall|i: int| k <= i < t.len() implies t[i] != '/' by {
        assert(t[i] == x[i - k]);
    }
    assert(ends_in_name_at(t, k));
    lemma_name_tail(t, k);
}

/// Adding an extension to a path that ends in a name extends that name.
pub proof fn lemma_add_extension_name(t: Seq<char>, k: int, e: Seq<char>)
    requires
        ends_in_name_at(t, k),
        e.len() > 0,
        !e.contains('/'),
    ensures
        spec_add_extension(t, e) == t + seq!['.'] + e,
        ends_in_name_at(spec_add_extension(t, e), k),
        spec_add_extension(t, e).subrange(0, k) == t.subrange(0, k),
{
    lemma_name_tail(t, k);
    assert(t.subrange(0, t.len() as int) == t);
    let u = t + seq!['.'] + e;
    assert forall|i: int| k <= i < u.len() implies u[i] != '/' by {
        if i < t.len() {
            assert(u[i] == t[i]);
        } else if i > t.len() {
            assert(u[i] == e[i - t.len() - 1]);
        }
    }
    assert(ends_in_name_at(u, k));
    assert(u.subrange(0, k) == t.subrange(0, k));
}

/// `push` of a plain name followed by `add_extension` is `push` of the
/// longer name.
pub proof fn lemma_push_add_extension(par: Seq<char>, x: Seq<char>, e: Seq<char>)
    requires
        is_plain_name(x),
        e.len() > 0,
        !e.contains('/'),
    ensures
        spec_add_extension(spec_push(par, x), e) == spec_push(par, x + seq!['.'] + e),
        is_plain_name(x + seq!['.'] + e),
{
    let t = spec_push(par, x);
    lemma_push_name(par, x);
    lemma_add_extension_name(t, t.len() - x.len(), e);
    let y = x + seq!['.'] + e;
    assert(!y.contains('/')) by {
        assert forall|i: int| 0 <= i < y.len() implies y[i] != '/' by {
            if i < x.len() {
                assert(y[i] == x[i]);
            } else if i > x.len() {
                assert(y[i] == e[i - x.len() - 1]);
            }
        }
    }
    assert(x[0] != '/');
    assert(y[0] == x[0]);
    assert(!has_root(x) && !has_root(y));
    if par.len() > 0 && par.last() != '/' {
        assert(t + seq!['.'] + e == par + seq!['/'] + y);
    } else {
        assert(t + seq!['.'] + e == par + y);
    }
}

pub proof fn lemma_last_index_skip(s: Seq<char>, c: char, lo: int, k: int, end: int)
    requires
        lo <= k <= end <= s.len(),
        free_of(s, c, k, end),
    ensures
        last_index(s, c, lo, end) == last_index(s, c, lo, k),
    decreases end - k,
{
    if end > k {
        lemma_last_index_skip(s, c, lo, k, end - 1);
    }
}

/// Adding an extension keeps the parent and lengthens the file name.
pub proof fn lemma_add_extension_parent(p: Seq<char>, e: Seq<char>)
    requires
        spec_file_name(p) is Some,
        e.len() > 0,
        !e.contains('/'),
    ensures
        spec_add_extension(p, e) == p.subrange(0, name_end(p)) + seq!['.'] + e,
        ends_in_name_at(spec_add_extension(p, e), name_start(p)),
        name_start(spec_add_extension(p, e)) == name_start(p),
        spec_file_name(spec_add_extension(p, e)) == Some(
            spec_file_name(p)->0 + seq!['.'] + e,
        ),
        spec_parent(spec_add_extension(p, e)) == spec_parent(p),
{
    lemma_name_bounds(p);
    let k = name_start(p);
    let ne = name_end(p);
    let bs = body_start(p);
    let t = p.subrange(0, ne) + seq!['.'] + e;
    assert(spec_add_extension(p, e) == t);
    assert forall|i: int| k <= i < t.len() implies t[i] != '/' by {
        if i < ne {
            assert(t[i] == p[i]);
        } else if i > ne {
            assert(t[i] == e[i - ne - 1]);
        }
    }
    if k > 0 {
        if k > bs {
            assert(t[k - 1] == p[k - 1]);
        } else {
            // the name starts right after the root or a leading `.`
            assert(bs == 1);
            if has_cur_dir(p) {
                assert(p[1] == '/' || p.len() == 1);
                assert(p[1] != '/');
            }
            assert(t[0] == p[0]);
        }
    }
    assert(ends_in_name_at(t, k));
    lemma_name_tail(t, k);
    // same start: t and p agree on [0, ne)
    if ne >= 2 {
        assert(t[0] == p[0] && t[1] == p[1]);
    } else {
        assert(k == 0);
        assert(t[0] == p[0]);
        assert(p[0] != '.');
    }
    assert(body_start(t) == bs);
    assert(t.subrange(k, t.len() as int) == spec_file_name(p)->0 + seq!['.'] + e);
    lemma_last_index_skip(t, '/', bs, k, t.len() as int);
    lemma_last_index_skip(p, '/', bs, k, ne);
    lemma_last_index_agree(t, p, '/', bs, k);
    lemma_last_index(t, '/', bs, t.len() as int);
    let cut = comp_cut(t, bs, t.len() as int);
    assert(cut == comp_cut(p, bs, ne));
    assert(cut <= k);
    lemma_trim_end_agree(t, p, bs, cut);
    lemma_trim_end(t, bs, cut);
    assert(t.subrange(0, parent_end(t)) == p.subrange(0, parent_end(p)));
}

} // verus!
