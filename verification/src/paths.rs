//! Vault-relative path and link-target handling: slash normalization,
//! markdown extensions, wiki-link splitting, image extensions and the
//! path collapsing used to resolve image previews inside the vault.

use vstd::prelude::*;
use vstd::string::StringSliceAdditionalSpecFns;
use crate::editor::{bytes_eq, copy_range, push_bytes, push_range};
use crate::scan::{
    is_ws, spec_ws_run, spec_ws_run_back, spec_find_byte, spec_run_back, spec_lower,
    spec_lower_seq, ws_run, ws_run_back, find_byte, run_back, lower_bytes, push_str_bytes,
    bytes_eq_str,
};

verus! {

/// The larger of two mathematical integers.
pub open spec fn spec_max(a: int, b: int) -> int {
    if a >= b {
        a
    } else {
        b
    }
}

/// ASCII-whitespace trimming from both ends.
pub open spec fn spec_trim(s: Seq<u8>) -> Seq<u8> {
    let lo = spec_ws_run(s, 0);
    let hi = spec_ws_run_back(s, s.len() as int);
    if lo >= hi {
        Seq::empty()
    } else {
        s.subrange(lo, hi)
    }
}

/// The whitespace-trimmed copy of a buffer.
pub fn trim_bytes(s: &Vec<u8>) -> (r: Vec<u8>)
    ensures
        r@ == spec_trim(s@),
{
    let lo = ws_run(s, 0);
    let hi = ws_run_back(s, s.len());
    if lo >= hi {
        proof {
            assert(Seq::<u8>::empty() =~= spec_trim(s@));
        }
        Vec::new()
    } else {
        copy_range(s, lo, hi)
    }
}

/// Backslashes become forward slashes; all else is kept.
pub open spec fn spec_norm_slash(b: u8) -> u8 {
    if b == 92 {
        47
    } else {
        b
    }
}

/// The slash-normalized copy of a path.
pub open spec fn spec_norm_slashes(s: Seq<u8>) -> Seq<u8> {
    s.map_values(|b: u8| spec_norm_slash(b))
}

/// Replaces every backslash with a forward slash.
#[verifier::loop_isolation(false)]
pub fn normalize_slashes(s: &Vec<u8>) -> (r: Vec<u8>)
    ensures
        r@ == spec_norm_slashes(s@),
{
    let mut out: Vec<u8> = Vec::new();
    let mut i: usize = 0;
    while i < s.len()
        invariant
            i <= s@.len(),
            out@.len() == i,
            forall|k: int| 0 <= k < i ==> out@[k] == spec_norm_slash(s@[k]),
        decreases s@.len() - i,
    {
        let b = s[i];
        if b == 92 {
            out.push(47);
        } else {
            out.push(b);
        }
        i += 1;
    }
    proof {
        assert(out@ =~= spec_norm_slashes(s@));
    }
    out
}

/// Trimming of leading and trailing slash runs.
pub open spec fn spec_trim_slashes(s: Seq<u8>) -> Seq<u8> {
    let lo = crate::scan::spec_run_of(s, 47, 0);
    let hi = spec_run_back(s, 47, s.len() as int);
    if lo >= hi {
        Seq::empty()
    } else {
        s.subrange(lo, hi)
    }
}

/// A vault-relative path key: whitespace trimmed, backslashes turned to
/// slashes, and surrounding slashes removed.
pub open spec fn spec_normalize_rel_path(s: Seq<u8>) -> Seq<u8> {
    spec_trim_slashes(spec_norm_slashes(spec_trim(s)))
}

/// Normalizes a vault-relative path: trims whitespace, replaces
/// backslashes by slashes, and strips surrounding slashes.
pub fn normalize_rel_path(path: &Vec<u8>) -> (r: Vec<u8>)
    ensures
        r@ == spec_normalize_rel_path(path@),
{
    let t = trim_bytes(path);
    let n = normalize_slashes(&t);
    let lo = crate::scan::run_of(&n, 47, 0);
    let hi = run_back(&n, 47, n.len());
    if lo >= hi {
        proof {
            assert(Seq::<u8>::empty() =~= spec_trim_slashes(n@));
        }
        Vec::new()
    } else {
        copy_range(&n, lo, hi)
    }
}

/// Whether the path ends in `.md`, ignoring ASCII case.
pub open spec fn spec_ends_md(s: Seq<u8>) -> bool {
    s.len() >= 3 && s[s.len() - 3] == 46 && spec_lower(s[s.len() - 2]) == 109 && spec_lower(
        s[s.len() - 1],
    ) == 100
}

pub fn ends_md(s: &Vec<u8>) -> (r: bool)
    ensures
        r == spec_ends_md(s@),
{
    let n = s.len();
    if n < 3 {
        return false;
    }
    let d = s[n - 3];
    let m = s[n - 2];
    let e = s[n - 1];
    d == 46 && (m == 109 || m == 77) && (e == 100 || e == 68)
}

/// The normalized path with a `.md` extension guaranteed.
pub open spec fn spec_ensure_markdown_extension(s: Seq<u8>) -> Seq<u8> {
    let n = spec_normalize_rel_path(s);
    if spec_ends_md(n) {
        n
    } else {
        n + ".md".spec_bytes()
    }
}

/// Normalizes the path and appends `.md` unless it already ends in it.
pub fn ensure_markdown_extension(path: &Vec<u8>) -> (r: Vec<u8>)
    ensures
        r@ == spec_ensure_markdown_extension(path@),
{
    let mut n = normalize_rel_path(path);
    if !ends_md(&n) {
        push_str_bytes(&mut n, ".md");
    }
    n
}

/// The case-insensitive lookup key of a link target.
pub open spec fn spec_normalize_link_key(s: Seq<u8>) -> Seq<u8> {
    spec_lower_seq(spec_normalize_rel_path(s))
}

/// Lowers the normalized path to its case-insensitive lookup key.
pub fn normalize_link_key(path: &Vec<u8>) -> (r: Vec<u8>)
    ensures
        r@ == spec_normalize_link_key(path@),
{
    let n = normalize_rel_path(path);
    lower_bytes(&n)
}

/// The normalized path with a trailing `.md` removed.
pub open spec fn spec_strip_md(s: Seq<u8>) -> Seq<u8> {
    let n = spec_normalize_rel_path(s);
    if spec_ends_md(n) {
        n.subrange(0, n.len() - 3)
    } else {
        n
    }
}

/// Normalizes the path and drops a trailing `.md`.
pub fn strip_md(path: &Vec<u8>) -> (r: Vec<u8>)
    ensures
        r@ == spec_strip_md(path@),
{
    let n = normalize_rel_path(path);
    if ends_md(&n) {
        copy_range(&n, 0, n.len() - 3)
    } else {
        n
    }
}

/// A wiki link's inner text split into target, optional heading and
/// optional alias: the alias follows the first `|`, the heading follows
/// the first `#` of what precedes it.
pub open spec fn spec_split_wikilink(inner: Seq<u8>) -> (Seq<u8>, Option<Seq<u8>>, Option<
    Seq<u8>,
>) {
    let p = spec_find_byte(inner, 124, 0);
    let left = inner.subrange(0, p);
    let alias = if p < inner.len() {
        Some(inner.subrange(p + 1, inner.len() as int))
    } else {
        None
    };
    let h = spec_find_byte(left, 35, 0);
    let target = left.subrange(0, h);
    let heading = if h < left.len() {
        Some(left.subrange(h + 1, left.len() as int))
    } else {
        None
    };
    (target, heading, alias)
}

/// Splits a wiki link's inner text into target, optional heading and
/// optional alias.
pub fn split_wikilink_inner(inner: &Vec<u8>) -> (r: (Vec<u8>, Option<Vec<u8>>, Option<Vec<u8>>))
    ensures
        r.0@ == spec_split_wikilink(inner@).0,
        match (r.1, spec_split_wikilink(inner@).1) {
            (Some(a), Some(b)) => a@ == b,
            (None, None) => true,
            _ => false,
        },
        match (r.2, spec_split_wikilink(inner@).2) {
            (Some(a), Some(b)) => a@ == b,
            (None, None) => true,
            _ => false,
        },
{
    let p = find_byte(inner, 124, 0);
    let left = copy_range(inner, 0, p);
    let alias = if p < inner.len() {
        Some(copy_range(inner, p + 1, inner.len()))
    } else {
        None
    };
    let h = find_byte(&left, 35, 0);
    let target = copy_range(&left, 0, h);
    let heading = if h < left.len() {
        Some(copy_range(&left, h + 1, left.len()))
    } else {
        None
    };
    (target, heading, alias)
}

/// A wiki target stripped for linking: trimmed, cut at the first `|`
/// and `#`, and trimmed again.
pub open spec fn spec_strip_wiki_target(raw: Seq<u8>) -> Seq<u8> {
    let t = spec_trim(raw);
    let p = t.subrange(0, spec_find_byte(t, 124, 0));
    let h = p.subrange(0, spec_find_byte(p, 35, 0));
    spec_trim(h)
}

/// The linkable part of a wiki target: alias and heading suffixes
/// stripped.
pub fn strip_wiki_target(raw: &Vec<u8>) -> (r: Vec<u8>)
    ensures
        r@ == spec_strip_wiki_target(raw@),
{
    let t = trim_bytes(raw);
    let p = copy_range(&t, 0, find_byte(&t, 124, 0));
    let h = copy_range(&p, 0, find_byte(&p, 35, 0));
    trim_bytes(&h)
}

/// A markdown image or link target stripped for lookup: an
/// angle-bracketed target keeps what the brackets hold; otherwise the
/// first whitespace-delimited token counts; fragment and query suffixes
/// are cut.
pub open spec fn spec_strip_md_target(raw: Seq<u8>) -> Seq<u8> {
    let t = spec_trim(raw);
    let base = if t.len() > 0 && t[0] == 60 {
        let u = t.subrange(crate::scan::spec_run_of(t, 60, 0), t.len() as int);
        spec_trim(u.subrange(0, spec_find_byte(u, 62, 0)))
    } else {
        t.subrange(0, spec_find_ws(t, 0))
    };
    let f = base.subrange(0, spec_find_byte(base, 35, 0));
    let q = f.subrange(0, spec_find_byte(f, 63, 0));
    spec_trim(q)
}

/// The first whitespace position at or after `i`, or the length.
pub open spec fn spec_find_ws(s: Seq<u8>, i: int) -> int
    decreases s.len() - i,
{
    if i < 0 || i >= s.len() {
        s.len() as int
    } else if is_ws(s[i]) {
        i
    } else {
        spec_find_ws(s, i + 1)
    }
}

/// The first whitespace position at or after `from`, or the length.
#[verifier::loop_isolation(false)]
pub fn find_ws(s: &Vec<u8>, from: usize) -> (r: usize)
    requires
        from <= s@.len(),
    ensures
        r as int == spec_find_ws(s@, from as int),
        from <= r <= s@.len(),
{
    let mut i: usize = from;
    while i < s.len()
        invariant
            from <= i <= s@.len(),
            spec_find_ws(s@, from as int) == spec_find_ws(s@, i as int),
        decreases s@.len() - i,
    {
        if crate::scan::byte_is_ws(s[i]) {
            return i;
        }
        i += 1;
    }
    s.len()
}

/// The linkable part of a markdown image or link target.
pub fn strip_markdown_image_target(raw: &Vec<u8>) -> (r: Vec<u8>)
    ensures
        r@ == spec_strip_md_target(raw@),
{
    let t = trim_bytes(raw);
    let base: Vec<u8> = if t.len() > 0 && t[0] == 60 {
        let lt = crate::scan::run_of(&t, 60, 0);
        let u = copy_range(&t, lt, t.len());
        let inner = copy_range(&u, 0, find_byte(&u, 62, 0));
        trim_bytes(&inner)
    } else {
        copy_range(&t, 0, find_ws(&t, 0))
    };
    let f = copy_range(&base, 0, find_byte(&base, 35, 0));
    let q = copy_range(&f, 0, find_byte(&f, 63, 0));
    trim_bytes(&q)
}

// ---------------------------------------------------------------------------
// File names, stems and extensions.
// ---------------------------------------------------------------------------

/// The last position before `hi` holding byte `b`, or `-1`.
pub open spec fn spec_rfind_byte(s: Seq<u8>, b: u8, hi: int) -> int
    decreases hi,
{
    if hi <= 0 || hi > s.len() {
        -1
    } else if s[hi - 1] == b {
        hi - 1
    } else {
        spec_rfind_byte(s, b, hi - 1)
    }
}

/// The last position holding byte `b`, if any.
#[verifier::loop_isolation(false)]
pub fn rfind_byte(s: &Vec<u8>, b: u8) -> (r: Option<usize>)
    ensures
        match r {
            Some(k) => spec_rfind_byte(s@, b, s@.len() as int) == k && k < s@.len(),
            None => spec_rfind_byte(s@, b, s@.len() as int) == -1,
        },
{
    let mut i: usize = s.len();
    while i > 0
        invariant
            i <= s@.len(),
            spec_rfind_byte(s@, b, s@.len() as int) == spec_rfind_byte(s@, b, i as int),
        decreases i,
    {
        if s[i - 1] == b {
            return Some(i - 1);
        }
        i -= 1;
    }
    None
}

/// The final path component: what follows the last slash.
pub open spec fn spec_file_name(s: Seq<u8>) -> Seq<u8> {
    let k = spec_rfind_byte(s, 47, s.len() as int);
    s.subrange(k + 1, s.len() as int)
}

/// The extension of the slash-normalized path, as stored: the part of
/// the file name after its last dot, unless that dot starts the name.
pub open spec fn spec_ext_raw(path: Seq<u8>) -> Option<Seq<u8>> {
    let f = spec_file_name(spec_norm_slashes(path));
    let d = spec_rfind_byte(f, 46, f.len() as int);
    if d > 0 {
        Some(f.subrange(d + 1, f.len() as int))
    } else {
        None
    }
}

/// The extension, ASCII-lowercased.
pub open spec fn spec_ext_lower(path: Seq<u8>) -> Option<Seq<u8>> {
    match spec_ext_raw(path) {
        Some(e) => Some(spec_lower_seq(e)),
        None => None,
    }
}

/// The file name without its extension; the whole name when it has
/// none.
pub open spec fn spec_file_stem(path: Seq<u8>) -> Seq<u8> {
    let f = spec_file_name(spec_norm_slashes(path));
    match spec_ext_raw(path) {
        Some(e) => f.subrange(0, f.len() - e.len() - 1),
        None => f,
    }
}

/// The lowercased extension of a path, if it has one.
pub fn image_extension(path: &Vec<u8>) -> (r: Option<Vec<u8>>)
    ensures
        match r {
            Some(e) => spec_ext_lower(path@) == Some(e@),
            None => spec_ext_lower(path@) is None,
        },
{
    let n = normalize_slashes(path);
    let n_len = n.len();
    let fs = match rfind_byte(&n, 47) {
        Some(k) => k + 1,
        None => 0,
    };
    let f = copy_range(&n, fs, n_len);
    proof {
        assert(f@ =~= spec_file_name(n@));
    }
    let f_len = f.len();
    match rfind_byte(&f, 46) {
        Some(d) if d > 0 => {
            let e = copy_range(&f, d + 1, f_len);
            Some(lower_bytes(&e))
        },
        _ => None,
    }
}

/// The file name without its extension.
pub fn file_stem_of(path: &Vec<u8>) -> (r: Vec<u8>)
    ensures
        r@ == spec_file_stem(path@),
{
    let n = normalize_slashes(path);
    let n_len = n.len();
    let fs = match rfind_byte(&n, 47) {
        Some(k) => k + 1,
        None => 0,
    };
    let f = copy_range(&n, fs, n_len);
    proof {
        assert(f@ =~= spec_file_name(n@));
    }
    match rfind_byte(&f, 46) {
        Some(d) if d > 0 => copy_range(&f, 0, d),
        _ => {
            proof {
                assert(f@.subrange(0, f@.len() as int) =~= f@);
            }
            copy_range(&f, 0, f.len())
        },
    }
}

/// An extension the inline image renderer and the vault importer accept.
pub open spec fn spec_is_image_ext(e: Seq<u8>) -> bool {
    ||| e == "png".spec_bytes()
    ||| e == "jpg".spec_bytes()
    ||| e == "jpeg".spec_bytes()
    ||| e == "gif".spec_bytes()
    ||| e == "webp".spec_bytes()
    ||| e == "bmp".spec_bytes()
    ||| e == "svg".spec_bytes()
    ||| e == "tif".spec_bytes()
    ||| e == "tiff".spec_bytes()
    ||| e == "ico".spec_bytes()
    ||| e == "avif".spec_bytes()
    ||| e == "heic".spec_bytes()
    ||| e == "heif".spec_bytes()
}

/// Whether a lowercased extension names an importable image format.
pub fn is_importable_image_extension(ext: &Vec<u8>) -> (r: bool)
    ensures
        r == spec_is_image_ext(ext@),
{
    bytes_eq_str(ext, "png") || bytes_eq_str(ext, "jpg") || bytes_eq_str(ext, "jpeg")
        || bytes_eq_str(ext, "gif") || bytes_eq_str(ext, "webp") || bytes_eq_str(ext, "bmp")
        || bytes_eq_str(ext, "svg") || bytes_eq_str(ext, "tif") || bytes_eq_str(ext, "tiff")
        || bytes_eq_str(ext, "ico") || bytes_eq_str(ext, "avif") || bytes_eq_str(ext, "heic")
        || bytes_eq_str(ext, "heif")
}

/// A target the formatter may render as an inline image.
pub open spec fn spec_is_image_path(path: Seq<u8>) -> bool {
    match spec_ext_lower(path) {
        Some(e) => spec_is_image_ext(e),
        None => false,
    }
}

/// Whether the path's extension names a renderable image format.
pub fn is_supported_inline_image_path(path: &Vec<u8>) -> (r: bool)
    ensures
        r == spec_is_image_path(path@),
{
    match image_extension(path) {
        Some(e) => is_importable_image_extension(&e),
        None => false,
    }
}

/// The MIME type served for a path's image extension.
pub open spec fn spec_image_mime(path: Seq<u8>) -> Seq<u8> {
    match spec_ext_lower(path) {
        Some(e) => {
            if e == "png".spec_bytes() {
                "image/png".spec_bytes()
            } else if e == "jpg".spec_bytes() || e == "jpeg".spec_bytes() {
                "image/jpeg".spec_bytes()
            } else if e == "gif".spec_bytes() {
                "image/gif".spec_bytes()
            } else if e == "webp".spec_bytes() {
                "image/webp".spec_bytes()
            } else if e == "bmp".spec_bytes() {
                "image/bmp".spec_bytes()
            } else if e == "svg".spec_bytes() {
                "image/svg+xml".spec_bytes()
            } else if e == "tif".spec_bytes() || e == "tiff".spec_bytes() {
                "image/tiff".spec_bytes()
            } else if e == "ico".spec_bytes() {
                "image/x-icon".spec_bytes()
            } else if e == "avif".spec_bytes() {
                "image/avif".spec_bytes()
            } else if e == "heic".spec_bytes() {
                "image/heic".spec_bytes()
            } else if e == "heif".spec_bytes() {
                "image/heif".spec_bytes()
            } else {
                "application/octet-stream".spec_bytes()
            }
        },
        None => "application/octet-stream".spec_bytes(),
    }
}

/// The MIME type for a path's image extension, defaulting to a byte
/// stream.
pub fn image_mime_for_path(path: &Vec<u8>) -> (r: &'static str)
    ensures
        r.spec_bytes() == spec_image_mime(path@),
{
    match image_extension(path) {
        Some(e) => {
            if bytes_eq_str(&e, "png") {
                "image/png"
            } else if bytes_eq_str(&e, "jpg") || bytes_eq_str(&e, "jpeg") {
                "image/jpeg"
            } else if bytes_eq_str(&e, "gif") {
                "image/gif"
            } else if bytes_eq_str(&e, "webp") {
                "image/webp"
            } else if bytes_eq_str(&e, "bmp") {
                "image/bmp"
            } else if bytes_eq_str(&e, "svg") {
                "image/svg+xml"
            } else if bytes_eq_str(&e, "tif") || bytes_eq_str(&e, "tiff") {
                "image/tiff"
            } else if bytes_eq_str(&e, "ico") {
                "image/x-icon"
            } else if bytes_eq_str(&e, "avif") {
                "image/avif"
            } else if bytes_eq_str(&e, "heic") {
                "image/heic"
            } else if bytes_eq_str(&e, "heif") {
                "image/heif"
            } else {
                "application/octet-stream"
            }
        },
        None => "application/octet-stream",
    }
}

/// Whether the path names a markdown note.
pub fn is_markdown_file(path: &Vec<u8>) -> (r: bool)
    ensures
        r == (spec_ext_lower(path@) == Some("md".spec_bytes())),
{
    match image_extension(path) {
        Some(e) => bytes_eq_str(&e, "md"),
        None => false,
    }
}

/// A file the vault importer copies: a markdown note or a known image.
pub fn is_importable_asset(path: &Vec<u8>) -> (r: bool)
    ensures
        r == (spec_ext_lower(path@) == Some("md".spec_bytes()) || match spec_ext_lower(path@) {
            Some(e) => spec_is_image_ext(e),
            None => false,
        }),
{
    if is_markdown_file(path) {
        return true;
    }
    match image_extension(path) {
        Some(e) => is_importable_image_extension(&e),
        None => false,
    }
}

// ---------------------------------------------------------------------------
// Substring search and URL detection.
// ---------------------------------------------------------------------------

/// Whether `pat` occurs as a contiguous run inside `s`.
pub open spec fn spec_contains(s: Seq<u8>, pat: Seq<u8>) -> bool {
    exists|i: int|
        0 <= i && i + pat.len() <= s.len() && #[trigger] s.subrange(i, i + pat.len()) == pat
}

/// Whether `s[at..]` begins with the bytes of `pat`.
#[verifier::loop_isolation(false)]
pub fn matches_at(s: &Vec<u8>, at: usize, pat: &[u8]) -> (r: bool)
    requires
        at + pat@.len() <= s@.len(),
    ensures
        r == (s@.subrange(at as int, at + pat@.len()) == pat@),
{
    let n = s.len();
    let mut k: usize = 0;
    while k < pat.len()
        invariant
            n == s@.len(),
            k <= pat@.len(),
            at + pat@.len() <= s@.len(),
            forall|j: int| 0 <= j < k ==> s@[at + j] == pat@[j],
        decreases pat@.len() - k,
    {
        if s[at + k] != pat[k] {
            proof {
                assert(s@.subrange(at as int, at + pat@.len())[k as int] == s@[at + k]);
            }
            return false;
        }
        k += 1;
    }
    proof {
        assert(s@.subrange(at as int, at + pat@.len()) =~= pat@);
    }
    true
}

/// Whether the literal occurs anywhere in the buffer.
#[verifier::loop_isolation(false)]
pub fn contains_str(s: &Vec<u8>, pat: &str) -> (r: bool)
    ensures
        r == spec_contains(s@, pat.spec_bytes()),
{
    let p = pat.as_bytes();
    if p.len() == 0 {
        proof {
            assert(s@.subrange(0, 0 + pat.spec_bytes().len() as int) =~= pat.spec_bytes());
        }
        return true;
    }
    if p.len() > s.len() {
        return false;
    }
    let mut i: usize = 0;
    while i <= s.len() - p.len()
        invariant
            p@ == pat.spec_bytes(),
            p@.len() <= s@.len(),
            i <= s@.len() - p@.len() + 1,
            forall|j: int| 0 <= j < i ==> #[trigger] s@.subrange(j, j + p@.len()) != p@,
        decreases s@.len() - p@.len() + 1 - i,
    {
        if matches_at(s, i, p) {
            return true;
        }
        i += 1;
    }
    false
}

/// An external or data URL: the lowercased, trimmed target contains a
/// scheme separator or begins with an inline data scheme.
pub open spec fn spec_starts_with(s: Seq<u8>, pat: Seq<u8>) -> bool {
    s.len() >= pat.len() && s.subrange(0, pat.len() as int) == pat
}

pub open spec fn spec_is_external_url(target: Seq<u8>) -> bool {
    let t = spec_lower_seq(spec_trim(target));
    spec_contains(t, "://".spec_bytes()) || spec_starts_with(t, "data:".spec_bytes())
}

/// Whether the target points outside the vault as a URL.
pub fn looks_like_external_url(target: &Vec<u8>) -> (r: bool)
    ensures
        r == spec_is_external_url(target@),
{
    let t0 = trim_bytes(target);
    let t = lower_bytes(&t0);
    if contains_str(&t, "://") {
        return true;
    }
    let p = "data:".as_bytes();
    if t.len() >= p.len() {
        return matches_at(&t, 0, p);
    }
    false
}

/// The slash-normalized directory of a note path: what precedes the
/// last slash, or nothing.
pub open spec fn spec_note_dir(note_path: Seq<u8>) -> Seq<u8> {
    let n = spec_norm_slashes(note_path);
    let k = spec_rfind_byte(n, 47, n.len() as int);
    if k >= 0 {
        n.subrange(0, k)
    } else {
        Seq::empty()
    }
}

/// The directory holding the note, as a vault-relative path.
pub fn current_note_dir(note_path: &Vec<u8>) -> (r: Vec<u8>)
    ensures
        r@ == spec_note_dir(note_path@),
{
    let n = normalize_slashes(note_path);
    match rfind_byte(&n, 47) {
        Some(k) => copy_range(&n, 0, k),
        None => Vec::new(),
    }
}

// ---------------------------------------------------------------------------
// Path collapsing and containment.
// ---------------------------------------------------------------------------

/// The views of a list of buffers.
pub open spec fn seq_views(vs: Seq<Vec<u8>>) -> Seq<Seq<u8>> {
    vs.map_values(|v: Vec<u8>| v@)
}

/// Folds path segments from position `i` on into the segment stack:
/// empty and `.` segments vanish, `..` pops, anything else is pushed.
pub open spec fn spec_collapse_segs(s: Seq<u8>, i: int, acc: Seq<Seq<u8>>) -> Seq<Seq<u8>>
    decreases s.len() - i,
{
    if i < 0 {
        acc
    } else {
        let e = spec_find_byte(s, 47, i);
        let seg = s.subrange(i, e);
        let acc2 = if seg.len() == 0 || seg == ".".spec_bytes() {
            acc
        } else if seg == "..".spec_bytes() {
            if acc.len() > 0 {
                acc.drop_last()
            } else {
                acc
            }
        } else {
            acc.push(seg)
        };
        if e >= s.len() {
            acc2
        } else {
            spec_collapse_segs(s, spec_max(i + 1, e + 1), acc2)
        }
    }
}

/// Segments joined by single slashes.
pub open spec fn spec_join_slash(ss: Seq<Seq<u8>>, k: int) -> Seq<u8>
    decreases ss.len() - k,
{
    if k < 0 || k >= ss.len() {
        Seq::empty()
    } else if k == ss.len() - 1 {
        ss[k]
    } else {
        ss[k] + seq![47u8] + spec_join_slash(ss, k + 1)
    }
}

/// The collapsed form of a path: slashes normalized, a root or drive
/// prefix kept, empty and `.` segments dropped, `..` segments resolved
/// against the stack, the rest joined by single slashes.
pub open spec fn spec_collapse_path(path: Seq<u8>) -> Seq<u8> {
    let n = spec_norm_slashes(path);
    if n.len() > 0 && n[0] == 47 {
        let rest = n.subrange(crate::scan::spec_run_of(n, 47, 0), n.len() as int);
        "/".spec_bytes() + spec_join_slash(spec_collapse_segs(rest, 0, Seq::empty()), 0)
    } else if n.len() >= 2 && n[1] == 58 {
        let tail = n.subrange(2, n.len() as int);
        let rest = tail.subrange(crate::scan::spec_run_of(tail, 47, 0), tail.len() as int);
        n.subrange(0, 2) + seq![47u8] + spec_join_slash(
            spec_collapse_segs(rest, 0, Seq::empty()),
            0,
        )
    } else {
        spec_join_slash(spec_collapse_segs(n, 0, Seq::empty()), 0)
    }
}

fn collapse_segments(rest: &Vec<u8>) -> (r: Vec<Vec<u8>>)
    ensures
        seq_views(r@) == spec_collapse_segs(rest@, 0, Seq::empty()),
{
    let mut segs: Vec<Vec<u8>> = Vec::new();
    proof {
        assert(seq_views(segs@) =~= Seq::<Seq<u8>>::empty());
    }
    let mut i: usize = 0;
    loop
        invariant_except_break
            i <= rest@.len(),
            spec_collapse_segs(rest@, i as int, seq_views(segs@)) == spec_collapse_segs(
                rest@,
                0,
                Seq::empty(),
            ),
        ensures
            seq_views(segs@) == spec_collapse_segs(rest@, 0, Seq::empty()),
        decreases rest@.len() - i,
    {
        let ghost pre = seq_views(segs@);
        let e = find_byte(rest, 47, i);
        let seg = copy_range(rest, i, e);
        if seg.len() == 0 || bytes_eq_str(&seg, ".") {
        } else if bytes_eq_str(&seg, "..") {
            if segs.len() > 0 {
                segs.pop();
                proof {
                    assert(seq_views(segs@) =~= pre.drop_last());
                }
            }
        } else {
            segs.push(seg);
            proof {
                assert(seq_views(segs@) =~= pre.push(rest@.subrange(i as int, e as int)));
            }
        }
        if e >= rest.len() {
            break;
        }
        i = e + 1;
    }
    segs
}

#[verifier::loop_isolation(false)]
fn join_segments(prefix: Vec<u8>, segs: &Vec<Vec<u8>>) -> (r: Vec<u8>)
    ensures
        r@ == prefix@ + spec_join_slash(seq_views(segs@), 0),
{
    let ghost pre = prefix@;
    let ghost views = seq_views(segs@);
    let mut out = prefix;
    let mut k: usize = 0;
    while k < segs.len()
        invariant
            k <= segs@.len(),
            views == seq_views(segs@),
            k == 0 ==> out@ == pre,
            (0 < k && k < segs@.len()) ==> pre + spec_join_slash(views, 0) == out@ + seq![47u8]
                + spec_join_slash(views, k as int),
            (0 < k && k == segs@.len()) ==> out@ == pre + spec_join_slash(views, 0),
        decreases segs@.len() - k,
    {
        if k > 0 {
            out.push(47);
        }
        let ghost mid = out@;
        push_bytes(&mut out, &segs[k]);
        proof {
            assert(segs[k as int]@ == views[k as int]);
            if k == 0 {
                if k + 1 == segs@.len() {
                    assert(out@ =~= pre + spec_join_slash(views, 0));
                } else {
                    assert(pre + spec_join_slash(views, 0) =~= out@ + seq![47u8]
                        + spec_join_slash(views, k + 1));
                }
            } else {
                if k + 1 == segs@.len() {
                    assert(out@ =~= pre + spec_join_slash(views, 0));
                } else {
                    assert(pre + spec_join_slash(views, 0) =~= out@ + seq![47u8]
                        + spec_join_slash(views, k + 1));
                }
            }
        }
        k += 1;
    }
    proof {
        if segs@.len() == 0 {
            assert(out@ =~= pre + spec_join_slash(views, 0));
        }
    }
    out
}

/// Collapses a path: normalizes slashes, keeps a root or drive prefix,
/// drops empty and `.` segments and resolves `..` against the stack.
pub fn collapse_path(path: &Vec<u8>) -> (r: Vec<u8>)
    ensures
        r@ == spec_collapse_path(path@),
{
    let n = normalize_slashes(path);
    if n.len() > 0 && n[0] == 47 {
        let sk = crate::scan::run_of(&n, 47, 0);
        let rest = copy_range(&n, sk, n.len());
        let segs = collapse_segments(&rest);
        let mut prefix: Vec<u8> = Vec::new();
        push_str_bytes(&mut prefix, "/");
        join_segments(prefix, &segs)
    } else if n.len() >= 2 && n[1] == 58 {
        let tail = copy_range(&n, 2, n.len());
        let sk = crate::scan::run_of(&tail, 47, 0);
        let rest = copy_range(&tail, sk, tail.len());
        proof {
            assert(rest@ =~= tail@.subrange(crate::scan::spec_run_of(tail@, 47, 0),
                tail@.len() as int));
        }
        let segs = collapse_segments(&rest);
        let mut prefix = copy_range(&n, 0, 2);
        prefix.push(47);
        proof {
            assert(prefix@ =~= n@.subrange(0, 2) + seq![47u8]);
        }
        join_segments(prefix, &segs)
    } else {
        let segs = collapse_segments(&n);
        let prefix: Vec<u8> = Vec::new();
        let r = join_segments(prefix, &segs);
        proof {
            assert(r@ =~= spec_join_slash(spec_collapse_segs(n@, 0, Seq::empty()), 0));
        }
        r
    }
}

/// Containment of one collapsed path under another: the candidate is
/// the base or lies below it, and the base is not empty.
pub open spec fn spec_is_path_within(base: Seq<u8>, cand: Seq<u8>) -> bool {
    let bn0 = spec_collapse_path(base);
    let bn = bn0.subrange(0, spec_run_back(bn0, 47, bn0.len() as int));
    let cn = spec_collapse_path(cand);
    bn.len() > 0 && (cn == bn || (cn.len() > bn.len() && cn.subrange(0, bn.len() as int) == bn
        && cn[bn.len() as int] == 47))
}

/// Whether `candidate` lies at or below `base` once both are collapsed.
pub fn is_path_within(base: &Vec<u8>, candidate: &Vec<u8>) -> (r: bool)
    ensures
        r == spec_is_path_within(base@, candidate@),
{
    let bn0 = collapse_path(base);
    let bn = copy_range(&bn0, 0, run_back(&bn0, 47, bn0.len()));
    let cn = collapse_path(candidate);
    if bn.len() == 0 {
        return false;
    }
    if bytes_eq(&cn, &bn) {
        return true;
    }
    if cn.len() > bn.len() {
        let pref = matches_at(&cn, 0, bn.as_slice());
        return pref && cn[bn.len()] == 47;
    }
    false
}

// ---------------------------------------------------------------------------
// Image preview candidates inside the vault.
// ---------------------------------------------------------------------------

/// Byte-wise lexicographic order, as note path strings sort.
pub open spec fn spec_bytes_le(a: Seq<u8>, b: Seq<u8>) -> bool
    decreases a.len(),
{
    if a.len() == 0 {
        true
    } else if b.len() == 0 {
        false
    } else if a[0] < b[0] {
        true
    } else if a[0] > b[0] {
        false
    } else {
        spec_bytes_le(a.drop_first(), b.drop_first())
    }
}

/// Lexicographic comparison of two buffers.
#[verifier::loop_isolation(false)]
pub fn bytes_le(a: &Vec<u8>, b: &Vec<u8>) -> (r: bool)
    ensures
        r == spec_bytes_le(a@, b@),
{
    proof {
        assert(a@.skip(0) =~= a@);
        assert(b@.skip(0) =~= b@);
    }
    let mut i: usize = 0;
    while i < a.len() && i < b.len()
        invariant
            i <= a@.len(),
            i <= b@.len(),
            spec_bytes_le(a@, b@) == spec_bytes_le(a@.skip(i as int), b@.skip(i as int)),
            forall|k: int| 0 <= k < i ==> a@[k] == b@[k],
        decreases a@.len() - i,
    {
        let x = a[i];
        let y = b[i];
        if x < y {
            proof {
                assert(a@.skip(i as int)[0] == x && b@.skip(i as int)[0] == y);
            }
            return true;
        }
        if x > y {
            proof {
                assert(a@.skip(i as int)[0] == x && b@.skip(i as int)[0] == y);
            }
            return false;
        }
        proof {
            assert(a@.skip(i as int)[0] == x && b@.skip(i as int)[0] == y);
            assert(a@.skip(i as int).drop_first() =~= a@.skip(i + 1));
            assert(b@.skip(i as int).drop_first() =~= b@.skip(i + 1));
        }
        i += 1;
    }
    proof {
        if i >= a@.len() {
            assert(a@.skip(i as int).len() == 0);
        } else {
            assert(b@.skip(i as int).len() == 0);
            assert(a@.skip(i as int).len() > 0);
        }
    }
    i >= a.len()
}

/// The vault-absolute paths an image target may resolve to: the note's
/// own directory first, then the vault root, kept inside the vault,
/// sorted and deduplicated; a rooted target resolves against the vault
/// root alone, and an external or drive-absolute target not at all.
pub open spec fn spec_image_candidates(vault: Seq<u8>, note: Seq<u8>, target: Seq<u8>) -> Seq<
    Seq<u8>,
> {
    if target.len() == 0 || !spec_is_image_path(target) || spec_is_external_url(target) {
        Seq::empty()
    } else {
        let tn = spec_norm_slashes(spec_trim(target));
        let vn = spec_collapse_path(vault);
        if tn.len() >= 2 && tn[1] == 58 {
            Seq::empty()
        } else if tn.len() > 0 && tn[0] == 47 {
            let tail = tn.subrange(crate::scan::spec_run_of(tn, 47, 0), tn.len() as int);
            seq![spec_collapse_path(vn + seq![47u8] + tail)]
        } else {
            let nd = spec_note_dir(note);
            let c2 = spec_collapse_path(vn + seq![47u8] + tn);
            let kept = if nd.len() > 0 {
                let c1 = spec_collapse_path(vn + seq![47u8] + nd + seq![47u8] + tn);
                let k1 = spec_is_path_within(vn, c1);
                let k2 = spec_is_path_within(vn, c2);
                if k1 && k2 {
                    seq![c1, c2]
                } else if k1 {
                    seq![c1]
                } else if k2 {
                    seq![c2]
                } else {
                    Seq::empty()
                }
            } else {
                if spec_is_path_within(vn, c2) {
                    seq![c2]
                } else {
                    Seq::empty()
                }
            };
            if kept.len() == 2 {
                if kept[0] == kept[1] {
                    seq![kept[0]]
                } else if spec_bytes_le(kept[0], kept[1]) {
                    kept
                } else {
                    seq![kept[1], kept[0]]
                }
            } else {
                kept
            }
        }
    }
}

/// Builds the in-vault resolution candidates for an image target.
pub fn image_local_candidates(vault_path: &Vec<u8>, note_path: &Vec<u8>, target: &Vec<u8>) -> (r:
    Vec<Vec<u8>>)
    ensures
        seq_views(r@) == spec_image_candidates(vault_path@, note_path@, target@),
{
    let mut out: Vec<Vec<u8>> = Vec::new();
    proof {
        assert(seq_views(out@) =~= Seq::<Seq<u8>>::empty());
    }
    if target.len() == 0 || !is_supported_inline_image_path(target) {
        return out;
    }
    if looks_like_external_url(target) {
        return out;
    }
    let t0 = trim_bytes(target);
    let tn = normalize_slashes(&t0);
    let vn = collapse_path(vault_path);
    if tn.len() >= 2 && tn[1] == 58 {
        // A drive-absolute target: auto-render stays strictly inside the
        // vault.
        return out;
    }
    if tn.len() > 0 && tn[0] == 47 {
        let sk = crate::scan::run_of(&tn, 47, 0);
        let mut joined = vn;
        joined.push(47);
        push_range(&mut joined, &tn, sk, tn.len());
        proof {
            assert(joined@ =~= spec_collapse_path(vault_path@) + seq![47u8] + tn@.subrange(
                crate::scan::spec_run_of(tn@, 47, 0),
                tn@.len() as int,
            ));
        }
        let c = collapse_path(&joined);
        out.push(c);
        proof {
            assert(seq_views(out@) =~= spec_image_candidates(vault_path@, note_path@, target@));
        }
        return out;
    }
    let nd = current_note_dir(note_path);
    let mut j2 = Vec::new();
    push_bytes(&mut j2, &vn);
    j2.push(47);
    push_bytes(&mut j2, &tn);
    proof {
        assert(j2@ =~= spec_collapse_path(vault_path@) + seq![47u8] + tn@);
    }
    let c2 = collapse_path(&j2);
    let mut kept: Vec<Vec<u8>> = Vec::new();
    proof {
        assert(seq_views(kept@) =~= Seq::<Seq<u8>>::empty());
    }
    if nd.len() > 0 {
        let mut j1 = Vec::new();
        push_bytes(&mut j1, &vn);
        j1.push(47);
        push_bytes(&mut j1, &nd);
        j1.push(47);
        push_bytes(&mut j1, &tn);
        proof {
            assert(j1@ =~= spec_collapse_path(vault_path@) + seq![47u8] + spec_note_dir(note_path@)
                + seq![47u8] + tn@);
        }
        let c1 = collapse_path(&j1);
        let k1 = is_path_within(&vn, &c1);
        let k2 = is_path_within(&vn, &c2);
        let ghost c1v = c1@;
        let ghost c2v = c2@;
        if k1 {
            kept.push(c1);
        }
        if k2 {
            kept.push(c2);
        }
        proof {
            if k1 && k2 {
                assert(seq_views(kept@) =~= seq![c1v, c2v]);
            } else if k1 {
                assert(seq_views(kept@) =~= seq![c1v]);
            } else if k2 {
                assert(seq_views(kept@) =~= seq![c2v]);
            }
        }
    } else {
        let k2 = is_path_within(&vn, &c2);
        let ghost c2v = c2@;
        if k2 {
            kept.push(c2);
        }
        proof {
            if k2 {
                assert(seq_views(kept@) =~= seq![c2v]);
            }
        }
    }
    if kept.len() == 2 {
        let ghost keptv = seq_views(kept@);
        let second = kept.pop().unwrap();
        let first = kept.pop().unwrap();
        proof {
            assert(first@ == keptv[0] && second@ == keptv[1]);
        }
        if bytes_eq(&first, &second) {
            out.push(first);
            proof {
                assert(seq_views(out@) =~= seq![keptv[0]]);
            }
        } else if bytes_le(&first, &second) {
            out.push(first);
            out.push(second);
            proof {
                assert(seq_views(out@) =~= seq![keptv[0], keptv[1]]);
            }
        } else {
            out.push(second);
            out.push(first);
            proof {
                assert(seq_views(out@) =~= seq![keptv[1], keptv[0]]);
            }
        }
        out
    } else {
        kept
    }
}

// ---------------------------------------------------------------------------
// Host bookkeeping paths and import names.
// ---------------------------------------------------------------------------

/// Where a vault keeps its recent-notes list.
pub open spec fn spec_recent_notes_path(vault: Seq<u8>) -> Seq<u8> {
    if vault.len() == 0 {
        ".bedrock/recent.json".spec_bytes()
    } else if vault[vault.len() - 1] == 47 {
        vault + ".bedrock/recent.json".spec_bytes()
    } else {
        vault + "/.bedrock/recent.json".spec_bytes()
    }
}

/// The vault's recent-notes file, under its bookkeeping directory.
pub fn recent_notes_path(vault_path: &Vec<u8>) -> (r: Vec<u8>)
    ensures
        r@ == spec_recent_notes_path(vault_path@),
{
    let mut out: Vec<u8> = Vec::new();
    if vault_path.len() == 0 {
        push_str_bytes(&mut out, ".bedrock/recent.json");
        return out;
    }
    push_bytes(&mut out, vault_path);
    if vault_path[vault_path.len() - 1] == 47 {
        push_str_bytes(&mut out, ".bedrock/recent.json");
        proof {
            assert(out@ =~= vault_path@ + ".bedrock/recent.json".spec_bytes());
        }
    } else {
        push_str_bytes(&mut out, "/.bedrock/recent.json");
        proof {
            assert(out@ =~= vault_path@ + "/.bedrock/recent.json".spec_bytes());
        }
    }
    out
}

/// The renamed relative path the importer tries when a file already
/// exists at its destination: the stem gains an import counter, with
/// fallbacks for a missing stem or extension.
pub open spec fn spec_import_candidate(rel: Seq<u8>, idx: int) -> Seq<u8> {
    let parent = spec_note_dir(rel);
    let stem0 = spec_file_stem(rel);
    let stem = if stem0.len() == 0 {
        "Imported note".spec_bytes()
    } else {
        stem0
    };
    let ext = match spec_ext_raw(rel) {
        Some(e) => e,
        None => "md".spec_bytes(),
    };
    let fname = stem + " (import ".spec_bytes() + crate::scan::spec_u64_dec(idx) + ").".spec_bytes()
        + ext;
    if parent.len() == 0 {
        fname
    } else {
        parent + seq![47u8] + fname
    }
}

/// The import rename candidate for one counter value.
pub fn import_candidate_name(rel_path: &Vec<u8>, idx: u64) -> (r: Vec<u8>)
    ensures
        r@ == spec_import_candidate(rel_path@, idx as int),
{
    let parent = current_note_dir(rel_path);
    let stem0 = file_stem_of(rel_path);
    let mut out: Vec<u8> = Vec::new();
    if parent.len() > 0 {
        push_bytes(&mut out, &parent);
        out.push(47);
    }
    if stem0.len() == 0 {
        push_str_bytes(&mut out, "Imported note");
    } else {
        push_bytes(&mut out, &stem0);
    }
    push_str_bytes(&mut out, " (import ");
    crate::scan::push_u64_dec(&mut out, idx);
    push_str_bytes(&mut out, ").");
    match image_extension_raw(rel_path) {
        Some(e) => push_bytes(&mut out, &e),
        None => push_str_bytes(&mut out, "md"),
    }
    proof {
        assert(out@ =~= spec_import_candidate(rel_path@, idx as int));
    }
    out
}

/// The extension as stored, without lowercasing.
pub fn image_extension_raw(path: &Vec<u8>) -> (r: Option<Vec<u8>>)
    ensures
        match r {
            Some(e) => spec_ext_raw(path@) == Some(e@),
            None => spec_ext_raw(path@) is None,
        },
{
    let n = normalize_slashes(path);
    let n_len = n.len();
    let fs = match rfind_byte(&n, 47) {
        Some(k) => k + 1,
        None => 0,
    };
    let f = copy_range(&n, fs, n_len);
    proof {
        assert(f@ =~= spec_file_name(n@));
    }
    let f_len = f.len();
    match rfind_byte(&f, 46) {
        Some(d) if d > 0 => Some(copy_range(&f, d + 1, f_len)),
        _ => None,
    }
}

} // verus!
