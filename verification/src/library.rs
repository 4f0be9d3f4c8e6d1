//! Layout of the content library: a file is stored under the lowercase
//! hexadecimal form of its SHA-1 hash, in a folder named after the first
//! two digits.
use crate::text::chars_of;
use crate::unix_path::{
    copy_range, ends_in_name_at, ext_dot, is_plain_name, last_index, lemma_last_index,
    lemma_name_tail, lemma_push_name, spec_push, spec_set_extension, UnixPath,
};
use vstd::prelude::*;

verus! {

/// The lowercase hexadecimal digit for `v` in `0..16`.
pub open spec fn hex_digit(v: int) -> char {
    if v < 10 {
        (48 + v) as char
    } else {
        (87 + v) as char
    }
}

/// Each byte as two lowercase hexadecimal digits, high half first.
pub open spec fn spec_hex_lower(d: Seq<u8>) -> Seq<char>
    decreases d.len(),
{
    if d.len() == 0 {
        Seq::<char>::empty()
    } else {
        seq![hex_digit(d[0] as int / 16), hex_digit(d[0] as int % 16)] + spec_hex_lower(
            d.drop_first(),
        )
    }
}

/// `hex::encode`: the crate maps every byte through the table
/// `0123456789abcdef`, high half first, so the result is `spec_hex_lower`
/// of the bytes.
#[verifier::external_body]
fn hex_encode(data: &[u8; 20]) -> (r: String)
    ensures
        r@ == spec_hex_lower(data@),
{
    hex::encode(data)
}

pub open spec fn is_hex_char(c: char) -> bool {
    ('0' <= c <= '9') || ('a' <= c <= 'f')
}

pub proof fn lemma_hex_lower(d: Seq<u8>)
    ensures
        spec_hex_lower(d).len() == 2 * d.len(),
        forall|i: int| 0 <= i < spec_hex_lower(d).len() ==> is_hex_char(#[trigger] spec_hex_lower(d)[i]),
    decreases d.len(),
{
    if d.len() > 0 {
        lemma_hex_lower(d.drop_first());
        let h = spec_hex_lower(d);
        let t = spec_hex_lower(d.drop_first());
        assert forall|i: int| 0 <= i < h.len() implies is_hex_char(#[trigger] h[i]) by {
            if i >= 2 {
                assert(h[i] == t[i - 2]);
            }
        }
    }
}

/// The extension part of a library path: `.{e}` for a non-empty `e`.
pub open spec fn ext_suffix(ext: Option<Seq<char>>) -> Seq<char> {
    match ext {
        Some(e) => if e.len() > 0 {
            seq!['.'] + e
        } else {
            Seq::<char>::empty()
        },
        None => Seq::<char>::empty(),
    }
}

pub open spec fn opt_str_view(o: Option<&str>) -> Option<Seq<char>> {
    match o {
        Some(s) => Some(s@),
        None => None,
    }
}

/// The library path as composed from path operations: `dir`, joined with the
/// first two hash digits, joined with the hash, with the extension set.
pub open spec fn spec_content_library_path(
    dir: Seq<char>,
    hash: Seq<u8>,
    ext: Option<Seq<char>>,
) -> Seq<char> {
    let h = spec_hex_lower(hash);
    let base = spec_push(spec_push(dir, h.subrange(0, 2)), h);
    match ext {
        Some(e) => spec_set_extension(base, e),
        None => base,
    }
}

/// Where the content library keeps the file with SHA-1 `expected_hash`:
/// `{dir}/{first two hex digits}/{hex digits}` followed by `.{extension}`
/// when one is given. std rejects an extension that holds a separator.
pub fn create_content_library_path(
    content_library_dir: &UnixPath,
    expected_hash: [u8; 20],
    extension: Option<&str>,
) -> (r: UnixPath)
    requires
        extension matches Some(e) ==> !e@.contains('/'),
    ensures
        r@ == spec_content_library_path(
            content_library_dir@,
            expected_hash@,
            opt_str_view(extension),
        ),
        r@ == spec_push(
            content_library_dir@,
            spec_hex_lower(expected_hash@).subrange(0, 2),
        ) + seq!['/'] + spec_hex_lower(expected_hash@) + ext_suffix(opt_str_view(extension)),
{
    let hash_as_str = hex_encode(&expected_hash);
    let digits = chars_of(hash_as_str.as_str());
    proof {
        lemma_hex_lower(expected_hash@);
        lemma_library_path_direct(content_library_dir@, expected_hash@, opt_str_view(extension));
    }
    let folder = UnixPath { chars: copy_range(&digits, 0, 2) };
    let hash_folder = content_library_dir.join(&folder);
    let mut path = hash_folder.join(&UnixPath { chars: digits });
    if let Some(extension) = extension {
        path.set_extension(extension);
    }
    path
}

pub proof fn lemma_hex_plain(h: Seq<char>)
    requires
        h.len() >= 2,
        forall|i: int| 0 <= i < h.len() ==> is_hex_char(#[trigger] h[i]),
    ensures
        is_plain_name(h),
        is_plain_name(h.subrange(0, 2)),
        !h.contains('.'),
{
    assert(h[0] != '.' && h[0] != '/');
    let p = h.subrange(0, 2);
    assert(p[0] == h[0]);
    assert(!p.contains('/')) by {
        assert forall|i: int| 0 <= i < p.len() implies p[i] != '/' by {
            assert(p[i] == h[i]);
        }
    }
}

/// The composed library path in its direct form.
pub proof fn lemma_library_path_direct(dir: Seq<char>, hash: Seq<u8>, ext: Option<Seq<char>>)
    requires
        hash.len() == 20,
        ext matches Some(e) ==> !e.contains('/'),
    ensures
        spec_content_library_path(dir, hash, ext) == spec_push(
            dir,
            spec_hex_lower(hash).subrange(0, 2),
        ) + seq!['/'] + spec_hex_lower(hash) + ext_suffix(ext),
{
    let h = spec_hex_lower(hash);
    lemma_hex_lower(hash);
    lemma_hex_plain(h);
    let t1 = spec_push(dir, h.subrange(0, 2));
    lemma_push_name(dir, h.subrange(0, 2));
    assert(t1.last() != '/') by {
        assert(t1[t1.len() - 1] == h.subrange(0, 2)[1]);
    }
    assert(h[0] != '/');
    let base = spec_push(t1, h);
    assert(base == t1 + seq!['/'] + h);
    lemma_push_name(t1, h);
    let k = base.len() - h.len();
    lemma_name_tail(base, k);
    lemma_last_index(base, '.', k, base.len() as int);
    assert(ext_dot(base) < k) by {
        let r = ext_dot(base);
        if r >= k {
            assert(base[r] == h[r - k]);
        }
    }
    assert(base.subrange(0, base.len() as int) == base);
    match ext {
        Some(e) => {
            assert(spec_set_extension(base, e) == base + ext_suffix(ext));
        },
        None => {
            assert(base + ext_suffix(ext) == base);
        },
    }
}

pub proof fn lemma_hex_digit_injective(a: int, b: int)
    requires
        0 <= a < 16,
        0 <= b < 16,
        hex_digit(a) == hex_digit(b),
    ensures
        a == b,
{
    assert((hex_digit(a) as int) == (if a < 10 {
        48 + a
    } else {
        87 + a
    }));
    assert((hex_digit(b) as int) == (if b < 10 {
        48 + b
    } else {
        87 + b
    }));
}

/// Different bytes have different hexadecimal forms.
pub proof fn lemma_hex_injective(d1: Seq<u8>, d2: Seq<u8>)
    requires
        d1.len() == d2.len(),
        spec_hex_lower(d1) == spec_hex_lower(d2),
    ensures
        d1 == d2,
    decreases d1.len(),
{
    if d1.len() > 0 {
        let h1 = spec_hex_lower(d1);
        let h2 = spec_hex_lower(d2);
        assert(h1[0] == hex_digit(d1[0] as int / 16) && h2[0] == hex_digit(d2[0] as int / 16));
        assert(h1[1] == hex_digit(d1[0] as int % 16) && h2[1] == hex_digit(d2[0] as int % 16));
        lemma_hex_digit_injective(d1[0] as int / 16, d2[0] as int / 16);
        lemma_hex_digit_injective(d1[0] as int % 16, d2[0] as int % 16);
        assert(d1[0] == d2[0]);
        assert(spec_hex_lower(d1.drop_first()) == h1.subrange(2, h1.len() as int));
        assert(spec_hex_lower(d2.drop_first()) == h2.subrange(2, h2.len() as int));
        lemma_hex_injective(d1.drop_first(), d2.drop_first());
        assert(d1 == seq![d1[0]] + d1.drop_first());
        assert(d2 == seq![d2[0]] + d2.drop_first());
    }
}

/// Distinct hashes never share a library path.
pub proof fn law_distinct_hashes_distinct_paths(
    dir: Seq<char>,
    h1: Seq<u8>,
    h2: Seq<u8>,
    ext: Option<Seq<char>>,
)
    requires
        h1.len() == 20,
        h2.len() == 20,
        h1 != h2,
        ext matches Some(e) ==> !e.contains('/'),
    ensures
        spec_content_library_path(dir, h1, ext) != spec_content_library_path(dir, h2, ext),
{
    lemma_library_path_direct(dir, h1, ext);
    lemma_library_path_direct(dir, h2, ext);
    lemma_hex_lower(h1);
    lemma_hex_lower(h2);
    let x1 = spec_hex_lower(h1);
    let x2 = spec_hex_lower(h2);
    let f1 = spec_push(dir, x1.subrange(0, 2));
    let f2 = spec_push(dir, x2.subrange(0, 2));
    assert(x1[0] != '/' && x2[0] != '/');
    assert(f1.len() == f2.len());
    let l = f1.len() as int + 1;
    let p1 = f1 + seq!['/'] + x1 + ext_suffix(ext);
    let p2 = f2 + seq!['/'] + x2 + ext_suffix(ext);
    if p1 == p2 {
        assert(p1.subrange(l, l + 40) == x1);
        assert(p2.subrange(l, l + 40) == x2);
        lemma_hex_injective(h1, h2);
    }
}

} // verus!
