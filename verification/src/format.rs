//! Live markdown formatter: renders raw text as an annotated markup
//! string. A line-oriented block pass tracks frontmatter, code fences,
//! math and comment blocks and classifies the remaining lines; an inline
//! pass finds candidate spans per construct, keeps the
//! highest-precedence non-overlapping ones, and hides or reveals their
//! delimiter tokens depending on caret proximity. Image embeds resolve a
//! preview through the host's byte cache; a miss leaves the raw markup
//! visible.

use vstd::prelude::*;
use vstd::string::StringSliceAdditionalSpecFns;
use crate::editor::{copy_range, push_bytes, bytes_eq};
use crate::scan::{
    is_ws, is_alnum, spec_ws_run, spec_run_of, spec_find_byte, spec_all_ws, spec_digit_run,
    spec_line_end, ws_run, run_of, find_byte, all_ws_from, digit_run, line_end, push_str_bytes,
    byte_is_ws, byte_is_alnum, byte_is_alpha,
};
use crate::paths::{
    spec_max, spec_trim, spec_strip_wiki_target, spec_strip_md_target, spec_is_image_path,
    spec_is_external_url, spec_image_candidates, seq_views, trim_bytes, strip_wiki_target,
    strip_markdown_image_target, is_supported_inline_image_path, looks_like_external_url,
    image_local_candidates,
};

verus! {

// ---------------------------------------------------------------------------
// The inline match model.
// ---------------------------------------------------------------------------

/// A candidate inline span: the whole span, the inner text, the token
/// widths at each end, its class, whether its tokens hide away from the
/// caret, and an optional image preview to append.
pub struct InlineMatch {
    pub start: usize,
    pub end: usize,
    pub inner_start: usize,
    pub inner_end: usize,
    pub open_len: usize,
    pub close_len: usize,
    pub class: &'static str,
    pub hide_tokens: bool,
    pub preview_html: Option<Vec<u8>>,
}

/// The mathematical value of an inline match.
pub ghost struct SpecMatch {
    pub start: int,
    pub end: int,
    pub inner_start: int,
    pub inner_end: int,
    pub open_len: int,
    pub close_len: int,
    pub class: Seq<u8>,
    pub hide_tokens: bool,
    pub preview: Option<Seq<u8>>,
}

impl InlineMatch {
    /// The match as a mathematical value.
    pub open spec fn m(self) -> SpecMatch {
        SpecMatch {
            start: self.start as int,
            end: self.end as int,
            inner_start: self.inner_start as int,
            inner_end: self.inner_end as int,
            open_len: self.open_len as int,
            close_len: self.close_len as int,
            class: self.class.spec_bytes(),
            hide_tokens: self.hide_tokens,
            preview: match self.preview_html {
                Some(v) => Some(v@),
                None => None,
            },
        }
    }
}

impl SpecMatch {
    /// The span and its parts lie inside a line of length `len`, in
    /// order.
    pub open spec fn wf(self, len: int) -> bool {
        &&& 0 <= self.start
        &&& self.start + self.open_len <= self.inner_start
        &&& self.inner_start <= self.inner_end
        &&& self.inner_end <= self.end - self.close_len
        &&& self.end <= len
    }
}

/// The mathematical values of a list of matches.
pub open spec fn match_views(ms: Seq<InlineMatch>) -> Seq<SpecMatch> {
    ms.map_values(|im: InlineMatch| im.m())
}

/// The context image embeds resolve against: the active vault, the note
/// being rendered, and the host's cache from absolute path to data URI.
pub struct ImageRenderContext {
    pub vault_path: Vec<u8>,
    pub current_file: Vec<u8>,
    pub cache: Vec<(Vec<u8>, Vec<u8>)>,
}

/// The mathematical value of an image render context.
pub ghost struct SpecImageCtx {
    pub vault: Seq<u8>,
    pub file: Seq<u8>,
    pub cache: Seq<(Seq<u8>, Seq<u8>)>,
}

impl ImageRenderContext {
    /// The context as a mathematical value.
    pub open spec fn v(self) -> SpecImageCtx {
        SpecImageCtx {
            vault: self.vault_path@,
            file: self.current_file@,
            cache: self.cache@.map_values(|p: (Vec<u8>, Vec<u8>)| (p.0@, p.1@)),
        }
    }
}

/// The mathematical value of an optional context reference.
pub open spec fn ctx_view(ctx: Option<&ImageRenderContext>) -> Option<SpecImageCtx> {
    match ctx {
        Some(c) => Some(c.v()),
        None => None,
    }
}

// ---------------------------------------------------------------------------
// HTML escaping.
// ---------------------------------------------------------------------------

/// One byte escaped for markup text: `&`, `<` and `>` become entities.
pub open spec fn spec_esc_byte(b: u8) -> Seq<u8> {
    if b == 38 {
        "&amp;".spec_bytes()
    } else if b == 60 {
        "&lt;".spec_bytes()
    } else if b == 62 {
        "&gt;".spec_bytes()
    } else {
        seq![b]
    }
}

/// `s[i..hi)` escaped for markup text.
pub open spec fn spec_escape_range(s: Seq<u8>, i: int, hi: int) -> Seq<u8>
    decreases hi - i,
{
    if i < 0 || i >= hi || i >= s.len() {
        Seq::empty()
    } else {
        spec_esc_byte(s[i]) + spec_escape_range(s, i + 1, hi)
    }
}

/// Appends `src[start..end)` escaped for markup text.
#[verifier::loop_isolation(false)]
pub fn push_escaped_range(out: &mut Vec<u8>, src: &Vec<u8>, start: usize, end: usize)
    requires
        start <= end <= src@.len(),
    ensures
        final(out)@ == old(out)@ + spec_escape_range(src@, start as int, end as int),
{
    let mut i: usize = start;
    while i < end
        invariant
            start <= i <= end,
            old(out)@ + spec_escape_range(src@, start as int, end as int) == out@
                + spec_escape_range(src@, i as int, end as int),
        decreases end - i,
    {
        let b = src[i];
        if b == 38 {
            push_str_bytes(out, "&amp;");
        } else if b == 60 {
            push_str_bytes(out, "&lt;");
        } else if b == 62 {
            push_str_bytes(out, "&gt;");
        } else {
            out.push(b);
            proof {
                assert(spec_esc_byte(src@[i as int]) =~= seq![src@[i as int]]);
            }
        }
        i += 1;
        proof {
            assert(old(out)@ + spec_escape_range(src@, start as int, end as int) =~= out@
                + spec_escape_range(src@, i as int, end as int));
        }
    }
    proof {
        assert(old(out)@ + spec_escape_range(src@, start as int, end as int) =~= out@);
    }
}

/// One byte escaped for an attribute value: also `"` becomes an entity.
pub open spec fn spec_esc_attr_byte(b: u8) -> Seq<u8> {
    if b == 38 {
        "&amp;".spec_bytes()
    } else if b == 34 {
        "&quot;".spec_bytes()
    } else if b == 60 {
        "&lt;".spec_bytes()
    } else if b == 62 {
        "&gt;".spec_bytes()
    } else {
        seq![b]
    }
}

/// `s[i..hi)` escaped for an attribute value.
pub open spec fn spec_escape_attr(s: Seq<u8>, i: int) -> Seq<u8>
    decreases s.len() - i,
{
    if i < 0 || i >= s.len() {
        Seq::empty()
    } else {
        spec_esc_attr_byte(s[i]) + spec_escape_attr(s, i + 1)
    }
}

/// Appends the whole buffer escaped for an attribute value.
#[verifier::loop_isolation(false)]
pub fn push_escaped_attr(out: &mut Vec<u8>, src: &Vec<u8>)
    ensures
        final(out)@ == old(out)@ + spec_escape_attr(src@, 0),
{
    let mut i: usize = 0;
    while i < src.len()
        invariant
            i <= src@.len(),
            old(out)@ + spec_escape_attr(src@, 0) == out@ + spec_escape_attr(src@, i as int),
        decreases src@.len() - i,
    {
        let b = src[i];
        if b == 38 {
            push_str_bytes(out, "&amp;");
        } else if b == 34 {
            push_str_bytes(out, "&quot;");
        } else if b == 60 {
            push_str_bytes(out, "&lt;");
        } else if b == 62 {
            push_str_bytes(out, "&gt;");
        } else {
            out.push(b);
            proof {
                assert(spec_esc_attr_byte(src@[i as int]) =~= seq![src@[i as int]]);
            }
        }
        i += 1;
        proof {
            assert(old(out)@ + spec_escape_attr(src@, 0) =~= out@ + spec_escape_attr(
                src@,
                i as int,
            ));
        }
    }
    proof {
        assert(old(out)@ + spec_escape_attr(src@, 0) =~= out@);
    }
}

// ---------------------------------------------------------------------------
// Image previews.
// ---------------------------------------------------------------------------

/// The first value stored under `key`, if any.
pub open spec fn spec_cache_lookup(cache: Seq<(Seq<u8>, Seq<u8>)>, key: Seq<u8>) -> Option<
    Seq<u8>,
>
    decreases cache.len(),
{
    if cache.len() == 0 {
        None
    } else if cache[0].0 == key {
        Some(cache[0].1)
    } else {
        spec_cache_lookup(cache.drop_first(), key)
    }
}

/// The data URI of the first candidate present in the cache.
pub open spec fn spec_first_cached(cands: Seq<Seq<u8>>, cache: Seq<(Seq<u8>, Seq<u8>)>) -> Option<
    Seq<u8>,
>
    decreases cands.len(),
{
    if cands.len() == 0 {
        None
    } else {
        match spec_cache_lookup(cache, cands[0]) {
            Some(v) => Some(v),
            None => spec_first_cached(cands.drop_first(), cache),
        }
    }
}

/// The preview markup for an image target, when the target names a
/// renderable image and its bytes are already available: an external URL
/// is used directly, a local target resolves through the in-vault
/// candidates against the host's cache; otherwise nothing is rendered.
pub open spec fn spec_resolve_preview(
    ctx: Option<SpecImageCtx>,
    target: Seq<u8>,
    alt: Option<Seq<u8>>,
) -> Option<Seq<u8>> {
    if target.len() == 0 || !spec_is_image_path(target) {
        None
    } else {
        let src = if spec_is_external_url(target) {
            Some(target)
        } else {
            match ctx {
                None => None,
                Some(c) => spec_first_cached(
                    spec_image_candidates(c.vault, c.file, target),
                    c.cache,
                ),
            }
        };
        match src {
            None => None,
            Some(s) => Some(
                "<span class=\"md-inline-image-wrap\" contenteditable=\"false\"><img class=\"md-inline-image\" src=\"".spec_bytes()
                    + spec_escape_attr(s, 0) + "\" alt=\"".spec_bytes() + spec_escape_attr(
                    match alt {
                        Some(a) => a,
                        None => Seq::empty(),
                    },
                    0,
                ) + "\"/></span>".spec_bytes(),
            ),
        }
    }
}

#[verifier::loop_isolation(false)]
pub(crate) fn cache_lookup(cache: &Vec<(Vec<u8>, Vec<u8>)>, key: &Vec<u8>) -> (r: Option<Vec<u8>>)
    ensures
        ({
            let cv = cache@.map_values(|p: (Vec<u8>, Vec<u8>)| (p.0@, p.1@));
            match r {
                Some(v) => spec_cache_lookup(cv, key@) == Some(v@),
                None => spec_cache_lookup(cv, key@) is None,
            }
        }),
{
    let ghost cv = cache@.map_values(|p: (Vec<u8>, Vec<u8>)| (p.0@, p.1@));
    proof {
        assert(cv.skip(0) =~= cv);
    }
    let mut i: usize = 0;
    while i < cache.len()
        invariant
            i <= cache@.len(),
            cv == cache@.map_values(|p: (Vec<u8>, Vec<u8>)| (p.0@, p.1@)),
            forall|k: int| 0 <= k < i ==> cv[k].0 != key@,
            spec_cache_lookup(cv, key@) == spec_cache_lookup(cv.skip(i as int), key@),
        decreases cache@.len() - i,
    {
        if bytes_eq(&cache[i].0, key) {
            let v = copy_range(&cache[i].1, 0, cache[i].1.len());
            proof {
                assert(cv.skip(i as int)[0] == cv[i as int]);
                assert(v@ =~= cv[i as int].1);
            }
            return Some(v);
        }
        proof {
            assert(cv.skip(i as int)[0] == cv[i as int]);
            assert(cv.skip(i as int).drop_first() =~= cv.skip(i + 1));
        }
        i += 1;
    }
    proof {
        assert(cv.skip(i as int).len() == 0);
    }
    None
}

/// Renders the preview markup for an image target if its bytes are
/// already cached, or uses an external URL directly.
fn resolve_image_preview_html(
    ctx: Option<&ImageRenderContext>,
    target: &Vec<u8>,
    alt: Option<&Vec<u8>>,
) -> (r: Option<Vec<u8>>)
    ensures
        ({
            let sa = match alt {
                Some(a) => Some(a@),
                None => None,
            };
            match r {
                Some(v) => spec_resolve_preview(ctx_view(ctx), target@, sa) == Some(v@),
                None => spec_resolve_preview(ctx_view(ctx), target@, sa) is None,
            }
        }),
{
    if target.len() == 0 || !is_supported_inline_image_path(target) {
        return None;
    }
    let src: Vec<u8> = if looks_like_external_url(target) {
        copy_range(target, 0, target.len())
    } else {
        let c = match ctx {
            Some(c) => c,
            None => {
                return None;
            },
        };
        let cands = image_local_candidates(&c.vault_path, &c.current_file, target);
        match first_cached(&cands, &c.cache) {
            Some(v) => v,
            None => {
                return None;
            },
        }
    };
    let mut out: Vec<u8> = Vec::new();
    push_str_bytes(
        &mut out,
        "<span class=\"md-inline-image-wrap\" contenteditable=\"false\"><img class=\"md-inline-image\" src=\"",
    );
    push_escaped_attr(&mut out, &src);
    push_str_bytes(&mut out, "\" alt=\"");
    match alt {
        Some(a) => push_escaped_attr(&mut out, a),
        None => {
            let empty: Vec<u8> = Vec::new();
            push_escaped_attr(&mut out, &empty);
        },
    }
    push_str_bytes(&mut out, "\"/></span>");
    proof {
        let sa = match alt {
            Some(a) => Some(a@),
            None => None,
        };
        assert(target@.subrange(0, target@.len() as int) =~= target@);
        assert(spec_escape_attr(Seq::<u8>::empty(), 0) =~= Seq::<u8>::empty());
        assert(out@ =~= spec_resolve_preview(ctx_view(ctx), target@, sa).unwrap());
    }
    Some(out)
}

// ---------------------------------------------------------------------------
// Inline candidate discovery.
// ---------------------------------------------------------------------------

/// The first position at or after `i` holding `b1` or `b2`, or the
/// length.
pub open spec fn spec_find2(s: Seq<u8>, b1: u8, b2: u8, i: int) -> int
    decreases s.len() - i,
{
    if i < 0 || i >= s.len() {
        s.len() as int
    } else if s[i] == b1 || s[i] == b2 {
        i
    } else {
        spec_find2(s, b1, b2, i + 1)
    }
}

pub proof fn lemma_find2_bounds(s: Seq<u8>, b1: u8, b2: u8, i: int)
    requires
        0 <= i <= s.len(),
    ensures
        i <= spec_find2(s, b1, b2, i) <= s.len(),
    decreases s.len() - i,
{
    if i < s.len() && s[i] != b1 && s[i] != b2 {
        lemma_find2_bounds(s, b1, b2, i + 1);
    }
}

/// The first position at or after `from` holding `b1` or `b2`, or the
/// length.
#[verifier::loop_isolation(false)]
pub(crate) fn find2(s: &Vec<u8>, b1: u8, b2: u8, from: usize) -> (r: usize)
    requires
        from <= s@.len(),
    ensures
        r as int == spec_find2(s@, b1, b2, from as int),
        from <= r <= s@.len(),
{
    let mut i: usize = from;
    while i < s.len()
        invariant
            from <= i <= s@.len(),
            spec_find2(s@, b1, b2, from as int) == spec_find2(s@, b1, b2, i as int),
        decreases s@.len() - i,
    {
        if s[i] == b1 || s[i] == b2 {
            return i;
        }
        i += 1;
    }
    s.len()
}

/// A byte a tag may contain after its first letter.
pub open spec fn is_tag_byte(b: u8) -> bool {
    is_alnum(b) || b == 95 || b == 47 || b == 45
}

/// A byte a block identifier may contain after its first character.
pub open spec fn is_id_byte(b: u8) -> bool {
    is_alnum(b) || b == 45
}

/// How many tag bytes run from `i`.
pub open spec fn spec_tag_run(s: Seq<u8>, i: int) -> int
    decreases s.len() - i,
{
    if i < 0 || i >= s.len() || !is_tag_byte(s[i]) {
        0
    } else {
        1 + spec_tag_run(s, i + 1)
    }
}

/// How many block-identifier bytes run from `i`.
pub open spec fn spec_id_run(s: Seq<u8>, i: int) -> int
    decreases s.len() - i,
{
    if i < 0 || i >= s.len() || !is_id_byte(s[i]) {
        0
    } else {
        1 + spec_id_run(s, i + 1)
    }
}

#[verifier::loop_isolation(false)]
fn tag_run(s: &Vec<u8>, from: usize) -> (r: usize)
    requires
        from <= s@.len(),
    ensures
        r as int == spec_tag_run(s@, from as int),
        from + r <= s@.len(),
{
    let mut i: usize = from;
    while i < s.len() && (byte_is_alnum(s[i]) || s[i] == 95 || s[i] == 47 || s[i] == 45)
        invariant
            from <= i <= s@.len(),
            spec_tag_run(s@, from as int) == i - from + spec_tag_run(s@, i as int),
        decreases s@.len() - i,
    {
        i += 1;
    }
    i - from
}

#[verifier::loop_isolation(false)]
fn id_run(s: &Vec<u8>, from: usize) -> (r: usize)
    requires
        from <= s@.len(),
    ensures
        r as int == spec_id_run(s@, from as int),
        from + r <= s@.len(),
{
    let mut i: usize = from;
    while i < s.len() && (byte_is_alnum(s[i]) || s[i] == 45)
        invariant
            from <= i <= s@.len(),
            spec_id_run(s@, from as int) == i - from + spec_id_run(s@, i as int),
        decreases s@.len() - i,
    {
        i += 1;
    }
    i - from
}

/// The inline constructs candidates are discovered for, besides the
/// paired emphasis delimiters.
#[derive(Clone, Copy, PartialEq, Eq, Structural)]
pub enum InlineKind {
    Code,
    Embed,
    Wiki,
    MdImage,
    MdLink,
    InlineMath,
    FootnoteRef,
    InlineFootnote,
    Tag,
    BlockId,
}

/// The candidate of `kind` starting exactly at `i`, if the bytes there
/// form one: a code or math span runs to the next identical delimiter
/// on the line; embeds, wiki links, markdown links and images, and
/// footnote references follow their bracketed shapes; tags and block
/// identifiers are maximal character runs.
pub open spec fn spec_kind_at(
    kind: InlineKind,
    line: Seq<u8>,
    i: int,
    ctx: Option<SpecImageCtx>,
) -> Option<SpecMatch> {
    let len = line.len() as int;
    match kind {
        InlineKind::Code => spec_span1_at(line, i, 96, "hl-code".spec_bytes()),
        InlineKind::InlineMath => spec_span1_at(line, i, 36, "hl-math-inline".spec_bytes()),
        InlineKind::Embed => {
            if i + 2 < len && line[i] == 33 && line[i + 1] == 91 && line[i + 2] == 91 {
                let q = spec_find2(line, 93, 10, i + 3);
                if q < len && line[q] == 93 && q > i + 3 && q + 1 < len && line[q + 1] == 93 {
                    Some(
                        SpecMatch {
                            start: i,
                            end: q + 2,
                            inner_start: i + 3,
                            inner_end: q,
                            open_len: 3,
                            close_len: 2,
                            class: "hl-embed".spec_bytes(),
                            hide_tokens: true,
                            preview: spec_resolve_preview(
                                ctx,
                                spec_strip_wiki_target(line.subrange(i + 3, q)),
                                None,
                            ),
                        },
                    )
                } else {
                    None
                }
            } else {
                None
            }
        },
        InlineKind::Wiki => {
            if i + 1 < len && line[i] == 91 && line[i + 1] == 91 {
                let q = spec_find_byte(line, 93, i + 2);
                if q < len && q > i + 2 && q + 1 < len && line[q + 1] == 93 {
                    Some(
                        SpecMatch {
                            start: i,
                            end: q + 2,
                            inner_start: i + 2,
                            inner_end: q,
                            open_len: 2,
                            close_len: 2,
                            class: "hl-link".spec_bytes(),
                            hide_tokens: true,
                            preview: None,
                        },
                    )
                } else {
                    None
                }
            } else {
                None
            }
        },
        InlineKind::MdImage => {
            if i + 1 < len && line[i] == 33 && line[i + 1] == 91 {
                let j = spec_find2(line, 93, 10, i + 2);
                if j < len && line[j] == 93 && j + 1 < len && line[j + 1] == 40 {
                    let k = spec_find2(line, 41, 10, j + 2);
                    if k < len && line[k] == 41 && k > j + 2 {
                        Some(
                            SpecMatch {
                                start: i,
                                end: k + 1,
                                inner_start: i,
                                inner_end: k + 1,
                                open_len: 0,
                                close_len: 0,
                                class: "hl-embed".spec_bytes(),
                                hide_tokens: false,
                                preview: spec_resolve_preview(
                                    ctx,
                                    spec_strip_md_target(line.subrange(j + 2, k)),
                                    Some(line.subrange(i + 2, j)),
                                ),
                            },
                        )
                    } else {
                        None
                    }
                } else {
                    None
                }
            } else {
                None
            }
        },
        InlineKind::MdLink => {
            if i < len && line[i] == 91 {
                let j = spec_find2(line, 93, 10, i + 1);
                if j < len && line[j] == 93 && j > i + 1 && j + 1 < len && line[j + 1] == 40 {
                    let k = spec_find2(line, 41, 10, j + 2);
                    if k < len && line[k] == 41 && k > j + 2 {
                        Some(
                            SpecMatch {
                                start: i,
                                end: k + 1,
                                inner_start: i,
                                inner_end: k + 1,
                                open_len: 0,
                                close_len: 0,
                                class: "hl-link".spec_bytes(),
                                hide_tokens: false,
                                preview: None,
                            },
                        )
                    } else {
                        None
                    }
                } else {
                    None
                }
            } else {
                None
            }
        },
        InlineKind::FootnoteRef => {
            if i + 1 < len && line[i] == 91 && line[i + 1] == 94 {
                let j = spec_find2(line, 93, 10, i + 2);
                if j < len && line[j] == 93 && j > i + 2 {
                    Some(spec_flat_match(i, j + 1, "hl-footnote".spec_bytes()))
                } else {
                    None
                }
            } else {
                None
            }
        },
        InlineKind::InlineFootnote => {
            if i + 1 < len && line[i] == 94 && line[i + 1] == 91 {
                let j = spec_find2(line, 93, 10, i + 2);
                if j < len && line[j] == 93 && j > i + 2 {
                    Some(spec_flat_match(i, j + 1, "hl-footnote".spec_bytes()))
                } else {
                    None
                }
            } else {
                None
            }
        },
        InlineKind::Tag => {
            if i + 1 < len && line[i] == 35 && crate::scan::is_alpha(line[i + 1]) {
                Some(
                    spec_flat_match(i, i + 2 + spec_tag_run(line, i + 2), "hl-tag".spec_bytes()),
                )
            } else {
                None
            }
        },
        InlineKind::BlockId => {
            if i + 1 < len && line[i] == 94 && is_alnum(line[i + 1]) {
                Some(
                    spec_flat_match(i, i + 2 + spec_id_run(line, i + 2), "hl-block-id".spec_bytes()),
                )
            } else {
                None
            }
        },
    }
}

/// A tokenless match covering `[start, end)` whole.
pub open spec fn spec_flat_match(start: int, end: int, class: Seq<u8>) -> SpecMatch {
    SpecMatch {
        start,
        end,
        inner_start: start,
        inner_end: end,
        open_len: 0,
        close_len: 0,
        class,
        hide_tokens: false,
        preview: None,
    }
}

/// A one-byte-delimited span at `i`: the delimiter, a non-empty inner
/// run free of delimiters and newlines, and the closing delimiter.
pub open spec fn spec_span1_at(line: Seq<u8>, i: int, d: u8, class: Seq<u8>) -> Option<SpecMatch> {
    let len = line.len() as int;
    if i < len && line[i] == d {
        let q = spec_find2(line, d, 10, i + 1);
        if q < len && line[q] == d && q > i + 1 {
            Some(
                SpecMatch {
                    start: i,
                    end: q + 1,
                    inner_start: i + 1,
                    inner_end: q,
                    open_len: 1,
                    close_len: 1,
                    class,
                    hide_tokens: true,
                    preview: None,
                },
            )
        } else {
            None
        }
    } else {
        None
    }
}

/// All candidates of `kind` from position `i` on, leftmost first and
/// non-overlapping: after a candidate the scan continues at its end.
pub open spec fn spec_kind_matches(
    kind: InlineKind,
    line: Seq<u8>,
    i: int,
    ctx: Option<SpecImageCtx>,
) -> Seq<SpecMatch>
    decreases line.len() - i,
{
    if !(0 <= i < line.len()) {
        Seq::empty()
    } else {
        match spec_kind_at(kind, line, i, ctx) {
            Some(m) => {
                let nxt = spec_max(i + 1, m.end);
                seq![m] + spec_kind_matches(
                    kind,
                    line,
                    if nxt > line.len() {
                        line.len() as int
                    } else {
                        nxt
                    },
                    ctx,
                )
            },
            None => spec_kind_matches(kind, line, i + 1, ctx),
        }
    }
}

/// The candidate of `kind` at `i`, if any.
#[verifier::rlimit(100)]
pub(crate) fn kind_at(kind: InlineKind, line: &Vec<u8>, i: usize, ctx: Option<&ImageRenderContext>) -> (r:
    Option<InlineMatch>)
    requires
        i < line@.len(),
    ensures
        match r {
            Some(m) => spec_kind_at(kind, line@, i as int, ctx_view(ctx)) == Some(m.m())
                && m.m().wf(line@.len() as int) && (i as int) < m.m().end && m.m().start == i,
            None => spec_kind_at(kind, line@, i as int, ctx_view(ctx)) is None,
        },
{
    let len = line.len();
    match kind {
        InlineKind::Code => span1_at(line, i, 96, "hl-code"),
        InlineKind::InlineMath => span1_at(line, i, 36, "hl-math-inline"),
        InlineKind::Embed => {
            if len > 2 && i < len - 2 && line[i] == 33 && line[i + 1] == 91 && line[i + 2] == 91 {
                let q = find2(line, 93, 10, i + 3);
                if q < len && line[q] == 93 && q > i + 3 && q + 1 < len && line[q + 1] == 93 {
                    let raw = copy_range(line, i + 3, q);
                    let target = strip_wiki_target(&raw);
                    let preview_html = resolve_image_preview_html(ctx, &target, None);
                    return Some(
                        InlineMatch {
                            start: i,
                            end: q + 2,
                            inner_start: i + 3,
                            inner_end: q,
                            open_len: 3,
                            close_len: 2,
                            class: "hl-embed",
                            hide_tokens: true,
                            preview_html,
                        },
                    );
                }
                return None;
            }
            None
        },
        InlineKind::Wiki => {
            if i < len - 1 && line[i] == 91 && line[i + 1] == 91 {
                let q = find_byte(line, 93, i + 2);
                if q < len && q > i + 2 && q + 1 < len && line[q + 1] == 93 {
                    return Some(
                        InlineMatch {
                            start: i,
                            end: q + 2,
                            inner_start: i + 2,
                            inner_end: q,
                            open_len: 2,
                            close_len: 2,
                            class: "hl-link",
                            hide_tokens: true,
                            preview_html: None,
                        },
                    );
                }
                return None;
            }
            None
        },
        InlineKind::MdImage => {
            if i < len - 1 && line[i] == 33 && line[i + 1] == 91 {
                let j = find2(line, 93, 10, i + 2);
                if j < len && line[j] == 93 && j + 1 < len && line[j + 1] == 40 {
                    let k = find2(line, 41, 10, j + 2);
                    if k < len && line[k] == 41 && k > j + 2 {
                        let raw = copy_range(line, j + 2, k);
                        let alt = copy_range(line, i + 2, j);
                        let target = strip_markdown_image_target(&raw);
                        let preview_html = resolve_image_preview_html(ctx, &target, Some(&alt));
                        return Some(
                            InlineMatch {
                                start: i,
                                end: k + 1,
                                inner_start: i,
                                inner_end: k + 1,
                                open_len: 0,
                                close_len: 0,
                                class: "hl-embed",
                                hide_tokens: false,
                                preview_html,
                            },
                        );
                    }
                    return None;
                }
                return None;
            }
            None
        },
        InlineKind::MdLink => {
            if line[i] == 91 {
                let j = find2(line, 93, 10, i + 1);
                if j < len && line[j] == 93 && j > i + 1 && j + 1 < len && line[j + 1] == 40 {
                    let k = find2(line, 41, 10, j + 2);
                    if k < len && line[k] == 41 && k > j + 2 {
                        return Some(
                            InlineMatch {
                                start: i,
                                end: k + 1,
                                inner_start: i,
                                inner_end: k + 1,
                                open_len: 0,
                                close_len: 0,
                                class: "hl-link",
                                hide_tokens: false,
                                preview_html: None,
                            },
                        );
                    }
                    return None;
                }
                return None;
            }
            None
        },
        InlineKind::FootnoteRef => {
            if i < len - 1 && line[i] == 91 && line[i + 1] == 94 {
                let j = find2(line, 93, 10, i + 2);
                if j < len && line[j] == 93 && j > i + 2 {
                    return Some(flat_match(i, j + 1, "hl-footnote"));
                }
                return None;
            }
            None
        },
        InlineKind::InlineFootnote => {
            if i < len - 1 && line[i] == 94 && line[i + 1] == 91 {
                let j = find2(line, 93, 10, i + 2);
                if j < len && line[j] == 93 && j > i + 2 {
                    return Some(flat_match(i, j + 1, "hl-footnote"));
                }
                return None;
            }
            None
        },
        InlineKind::Tag => {
            if i < len - 1 && line[i] == 35 && byte_is_alpha(line[i + 1]) {
                let r = tag_run(line, i + 2);
                return Some(flat_match(i, i + 2 + r, "hl-tag"));
            }
            None
        },
        InlineKind::BlockId => {
            if i < len - 1 && line[i] == 94 && byte_is_alnum(line[i + 1]) {
                let r = id_run(line, i + 2);
                return Some(flat_match(i, i + 2 + r, "hl-block-id"));
            }
            None
        },
    }
}

fn flat_match(start: usize, end: usize, class: &'static str) -> (r: InlineMatch)
    ensures
        r.m() == spec_flat_match(start as int, end as int, class.spec_bytes()),
{
    InlineMatch {
        start,
        end,
        inner_start: start,
        inner_end: end,
        open_len: 0,
        close_len: 0,
        class,
        hide_tokens: false,
        preview_html: None,
    }
}

fn span1_at(line: &Vec<u8>, i: usize, d: u8, class: &'static str) -> (r: Option<InlineMatch>)
    requires
        i < line@.len(),
    ensures
        match r {
            Some(m) => spec_span1_at(line@, i as int, d, class.spec_bytes()) == Some(m.m())
                && m.m().wf(line@.len() as int) && (i as int) < m.m().end && m.m().start == i,
            None => spec_span1_at(line@, i as int, d, class.spec_bytes()) is None,
        },
{
    let len = line.len();
    if line[i] == d {
        let q = find2(line, d, 10, i + 1);
        if q < len && line[q] == d && q > i + 1 {
            return Some(
                InlineMatch {
                    start: i,
                    end: q + 1,
                    inner_start: i + 1,
                    inner_end: q,
                    open_len: 1,
                    close_len: 1,
                    class,
                    hide_tokens: true,
                    preview_html: None,
                },
            );
        }
        return None;
    }
    None
}

/// All candidates of `kind` on the line, leftmost first.
#[verifier::loop_isolation(false)]
#[verifier::rlimit(60)]
pub(crate) fn collect_kind(kind: InlineKind, line: &Vec<u8>, ctx: Option<&ImageRenderContext>) -> (r: Vec<
    InlineMatch,
>)
    ensures
        match_views(r@) == spec_kind_matches(kind, line@, 0, ctx_view(ctx)),
        forall|k: int| 0 <= k < r@.len() ==> (#[trigger] r@[k]).m().wf(line@.len() as int),
{
    let mut out: Vec<InlineMatch> = Vec::new();
    proof {
        assert(match_views(out@) =~= Seq::<SpecMatch>::empty());
    }
    let mut i: usize = 0;
    while i < line.len()
        invariant
            i <= line@.len(),
            spec_kind_matches(kind, line@, 0, ctx_view(ctx)) == match_views(out@)
                + spec_kind_matches(kind, line@, i as int, ctx_view(ctx)),
            forall|k: int| 0 <= k < out@.len() ==> (#[trigger] out@[k]).m().wf(line@.len() as int),
        decreases line@.len() - i,
    {
        let ghost pre = match_views(out@);
        match kind_at(kind, line, i, ctx) {
            Some(m) => {
                let next = m.end;
                proof {
                    assert(spec_max(i + 1, m.m().end) == m.m().end);
                }
                out.push(m);
                proof {
                    assert(match_views(out@) =~= pre.push(out@.last().m()));
                    assert(spec_kind_matches(kind, line@, 0, ctx_view(ctx)) =~= match_views(out@)
                        + spec_kind_matches(kind, line@, next as int, ctx_view(ctx)));
                }
                i = next;
            },
            None => {
                i += 1;
            },
        }
    }
    out
}

// ---------------------------------------------------------------------------
// Emphasis and comment delimiters.
// ---------------------------------------------------------------------------

/// The backslash run ending just before `idx`.
pub open spec fn spec_bs_run(line: Seq<u8>, idx: int) -> int
    decreases idx,
{
    if idx <= 0 || idx > line.len() || line[idx - 1] != 92 {
        0
    } else {
        1 + spec_bs_run(line, idx - 1)
    }
}

/// A token preceded by an odd number of backslashes is escaped and not
/// a delimiter.
pub open spec fn spec_escaped_at(line: Seq<u8>, idx: int) -> bool {
    spec_bs_run(line, idx) % 2 == 1
}

/// Whether the token at `idx` is escaped by the backslashes before it.
#[verifier::loop_isolation(false)]
fn escaped_at(line: &Vec<u8>, idx: usize) -> (r: bool)
    requires
        idx <= line@.len(),
    ensures
        r == spec_escaped_at(line@, idx as int),
{
    let mut i: usize = idx;
    let mut count: usize = 0;
    while i > 0 && line[i - 1] == 92
        invariant
            i <= idx,
            count == idx - i,
            spec_bs_run(line@, idx as int) == count + spec_bs_run(line@, i as int),
        decreases i,
    {
        i -= 1;
        count += 1;
    }
    count % 2 == 1
}

/// The first unescaped occurrence of the delimiter at or after `i`.
pub open spec fn spec_next_tok(line: Seq<u8>, d: Seq<u8>, i: int) -> Option<int>
    decreases line.len() - i,
{
    if i < 0 || d.len() <= 0 || i + d.len() > line.len() {
        None
    } else if line.subrange(i, i + d.len()) == d && !spec_escaped_at(line, i) {
        Some(i)
    } else {
        spec_next_tok(line, d, i + 1)
    }
}

#[verifier::loop_isolation(false)]
fn next_tok(line: &Vec<u8>, d: &[u8], from: usize) -> (r: Option<usize>)
    requires
        from <= line@.len(),
        d@.len() >= 1,
    ensures
        match r {
            Some(j) => spec_next_tok(line@, d@, from as int) == Some(j as int) && from <= j && j
                + d@.len() <= line@.len(),
            None => spec_next_tok(line@, d@, from as int) is None,
        },
{
    let n = line.len();
    let dl = d.len();
    if dl > n {
        return None;
    }
    if from > n - dl {
        return None;
    }
    let mut i: usize = from;
    while i <= n - dl
        invariant
            from <= i,
            i <= n - dl + 1,
            n == line@.len(),
            dl == d@.len(),
            dl <= n,
            spec_next_tok(line@, d@, from as int) == spec_next_tok(line@, d@, i as int),
        decreases n - i,
    {
        if crate::paths::matches_at(line, i, d) && !escaped_at(line, i) {
            return Some(i);
        }
        i += 1;
    }
    None
}

/// A paired delimiter match: both tokens, the inner text between them.
pub open spec fn spec_pair_match(o: int, j: int, dl: int, class: Seq<u8>, hide: bool) -> SpecMatch {
    SpecMatch {
        start: o,
        end: j + dl,
        inner_start: o + dl,
        inner_end: j,
        open_len: dl,
        close_len: dl,
        class,
        hide_tokens: hide,
        preview: None,
    }
}

/// An opener with no closer on the line: the rest of the line stays
/// visible as plain text under the class, so an in-progress edit never
/// hides what is still being typed.
pub open spec fn spec_unmatched_open(line: Seq<u8>, o: int, class: Seq<u8>, hide: bool) -> SpecMatch {
    SpecMatch {
        start: o,
        end: line.len() as int,
        inner_start: o,
        inner_end: line.len() as int,
        open_len: 0,
        close_len: 0,
        class,
        hide_tokens: hide,
        preview: None,
    }
}

/// Delimited spans from position `i` on: unescaped tokens pair up first
/// to next; a trailing unmatched opener covers the rest of the line.
pub open spec fn spec_delim_matches(
    line: Seq<u8>,
    d: Seq<u8>,
    class: Seq<u8>,
    hide: bool,
    i: int,
    pending: Option<int>,
) -> Seq<SpecMatch>
    decreases line.len() - i,
{
    if d.len() <= 0 {
        Seq::empty()
    } else {
        match spec_next_tok(line, d, i) {
            None => match pending {
                None => Seq::empty(),
                Some(o) => seq![spec_unmatched_open(line, o, class, hide)],
            },
            Some(j) => {
                let nxt0 = spec_max(i + 1, j + d.len());
                let nxt = if nxt0 > line.len() {
                    line.len() as int
                } else {
                    nxt0
                };
                match pending {
                    None => spec_delim_matches(line, d, class, hide, nxt, Some(j)),
                    Some(o) => seq![spec_pair_match(o, j, d.len() as int, class, hide)]
                        + spec_delim_matches(line, d, class, hide, nxt, None),
                }
            },
        }
    }
}

/// All delimited spans of `delim` on the line.
#[verifier::rlimit(60)]
fn collect_delimited(line: &Vec<u8>, delim: &str, class: &'static str, hide: bool) -> (r: Vec<
    InlineMatch,
>)
    ensures
        match_views(r@) == spec_delim_matches(
            line@,
            delim.spec_bytes(),
            class.spec_bytes(),
            hide,
            0,
            None,
        ),
        forall|k: int| 0 <= k < r@.len() ==> (#[trigger] r@[k]).m().wf(line@.len() as int),
{
    let d = delim.as_bytes();
    let n = line.len();
    let mut out: Vec<InlineMatch> = Vec::new();
    proof {
        assert(match_views(out@) =~= Seq::<SpecMatch>::empty());
    }
    if d.len() == 0 {
        return out;
    }
    let dl = d.len();
    let mut i: usize = 0;
    let mut pending: Option<usize> = None;
    loop
        invariant_except_break
            i <= line@.len(),
            n == line@.len(),
            dl == d@.len(),
            d@ == delim.spec_bytes(),
            1 <= dl,
            match pending {
                Some(o) => o + dl <= i && o + dl <= line@.len(),
                None => true,
            },
            spec_delim_matches(line@, d@, class.spec_bytes(), hide, 0, None) == match_views(out@)
                + spec_delim_matches(
                line@,
                d@,
                class.spec_bytes(),
                hide,
                i as int,
                match pending {
                    Some(o) => Some(o as int),
                    None => None,
                },
            ),
            forall|k: int| 0 <= k < out@.len() ==> (#[trigger] out@[k]).m().wf(line@.len() as int),
        ensures
            match_views(out@) == spec_delim_matches(
                line@,
                d@,
                class.spec_bytes(),
                hide,
                0,
                None,
            ),
            forall|k: int| 0 <= k < out@.len() ==> (#[trigger] out@[k]).m().wf(line@.len() as int),
        decreases line@.len() - i,
    {
        let ghost pre = match_views(out@);
        match next_tok(line, d, i) {
            None => {
                match pending {
                    Some(o) => {
                        out.push(
                            InlineMatch {
                                start: o,
                                end: line.len(),
                                inner_start: o,
                                inner_end: line.len(),
                                open_len: 0,
                                close_len: 0,
                                class,
                                hide_tokens: hide,
                                preview_html: None,
                            },
                        );
                        proof {
                            assert(match_views(out@) =~= pre.push(out@.last().m()));
                        }
                    },
                    None => {},
                }
                break;
            },
            Some(j) => {
                match pending {
                    None => {
                        pending = Some(j);
                    },
                    Some(o) => {
                        out.push(
                            InlineMatch {
                                start: o,
                                end: j + dl,
                                inner_start: o + dl,
                                inner_end: j,
                                open_len: dl,
                                close_len: dl,
                                class,
                                hide_tokens: hide,
                                preview_html: None,
                            },
                        );
                        pending = None;
                        proof {
                            assert(match_views(out@) =~= pre.push(out@.last().m()));
                        }
                    },
                }
                i = j + dl;
            },
        }
    }
    out
}

// ---------------------------------------------------------------------------
// Precedence fold, ordering and disjoint selection.
// ---------------------------------------------------------------------------

/// Whether a span over `[start, end)` intersects any accepted match.
pub open spec fn spec_overlaps(ms: Seq<SpecMatch>, start: int, end: int) -> bool {
    exists|k: int| 0 <= k < ms.len() && start < (#[trigger] ms[k]).end && end > ms[k].start
}

/// A candidate joins the accepted matches only where it intersects none
/// of them.
pub open spec fn spec_push_nov(ms: Seq<SpecMatch>, c: SpecMatch) -> Seq<SpecMatch> {
    if spec_overlaps(ms, c.start, c.end) {
        ms
    } else {
        ms.push(c)
    }
}

/// Folds a kind's candidates into the accepted matches in order.
pub open spec fn spec_add_all(acc: Seq<SpecMatch>, cs: Seq<SpecMatch>, i: int) -> Seq<SpecMatch>
    decreases cs.len() - i,
{
    if !(0 <= i < cs.len()) {
        acc
    } else {
        spec_add_all(spec_push_nov(acc, cs[i]), cs, i + 1)
    }
}

#[verifier::loop_isolation(false)]
fn overlaps_existing(ms: &Vec<InlineMatch>, start: usize, end: usize) -> (r: bool)
    ensures
        r == spec_overlaps(match_views(ms@), start as int, end as int),
{
    let mut k: usize = 0;
    while k < ms.len()
        invariant
            k <= ms@.len(),
            forall|j: int|
                0 <= j < k ==> !(start < (#[trigger] match_views(ms@)[j]).end && end
                    > match_views(ms@)[j].start),
        decreases ms@.len() - k,
    {
        if start < ms[k].end && end > ms[k].start {
            proof {
                assert(match_views(ms@)[k as int] == ms@[k as int].m());
            }
            return true;
        }
        k += 1;
    }
    false
}

fn push_non_overlapping(ms: &mut Vec<InlineMatch>, c: InlineMatch)
    ensures
        match_views(final(ms)@) == spec_push_nov(match_views(old(ms)@), c.m()),
        forall|k: int| 0 <= k < old(ms)@.len() ==> final(ms)@[k] == old(ms)@[k],
        final(ms)@.len() == old(ms)@.len() ==> final(ms)@ == old(ms)@,
        final(ms)@.len() != old(ms)@.len() ==> (final(ms)@.len() == old(ms)@.len() + 1 && final(
            ms)@.last() == c),
{
    let ghost pre = match_views(ms@);
    if !overlaps_existing(ms, c.start, c.end) {
        ms.push(c);
        proof {
            assert(match_views(ms@) =~= pre.push(ms@.last().m()));
        }
    }
}

/// Folds a kind's candidate list into the accepted matches.
#[verifier::loop_isolation(false)]
fn add_all(dst: &mut Vec<InlineMatch>, src: Vec<InlineMatch>, Ghost(len): Ghost<int>)
    requires
        forall|k: int| 0 <= k < old(dst)@.len() ==> (#[trigger] old(dst)@[k]).m().wf(len),
        forall|k: int| 0 <= k < src@.len() ==> (#[trigger] src@[k]).m().wf(len),
    ensures
        match_views(final(dst)@) == spec_add_all(match_views(old(dst)@), match_views(src@), 0),
        forall|k: int| 0 <= k < final(dst)@.len() ==> (#[trigger] final(dst)@[k]).m().wf(len),
{
    let ghost srcv = match_views(src@);
    let mut rest = src;
    let total = rest.len();
    let mut i: usize = 0;
    proof {
        assert(match_views(rest@) =~= srcv.skip(0));
    }
    while rest.len() > 0
        invariant
            total == srcv.len(),
            i + rest@.len() == srcv.len(),
            match_views(rest@) == srcv.skip(i as int),
            forall|k: int| 0 <= k < srcv.len() ==> (#[trigger] srcv[k]).wf(len),
            forall|k: int| 0 <= k < dst@.len() ==> (#[trigger] dst@[k]).m().wf(len),
            spec_add_all(match_views(old(dst)@), srcv, 0) == spec_add_all(
                match_views(dst@),
                srcv,
                i as int,
            ),
        decreases rest@.len(),
    {
        let ghost restv = match_views(rest@);
        let c = rest.remove(0);
        proof {
            assert(c.m() == restv[0]);
            assert(restv[0] == srcv[i as int]);
            assert(match_views(rest@) =~= restv.drop_first());
            assert(restv.drop_first() =~= srcv.skip(i + 1));
        }
        push_non_overlapping(dst, c);
        i += 1;
    }
    proof {
        assert(srcv.skip(i as int).len() == 0);
    }
}

/// Order of accepted matches by their start offset.
pub open spec fn match_le(a: SpecMatch, b: SpecMatch) -> bool {
    a.start <= b.start
}

/// Stable insertion of a match into an ordered list.
pub open spec fn spec_insert_match(s: Seq<SpecMatch>, c: SpecMatch) -> Seq<SpecMatch>
    decreases s.len(),
{
    if s.len() == 0 {
        seq![c]
    } else if match_le(s.last(), c) {
        s.push(c)
    } else {
        spec_insert_match(s.drop_last(), c).push(s.last())
    }
}

/// Stable sort of the accepted matches by start offset.
pub open spec fn spec_sort_matches(s: Seq<SpecMatch>) -> Seq<SpecMatch>
    decreases s.len(),
{
    if s.len() == 0 {
        Seq::empty()
    } else {
        spec_insert_match(spec_sort_matches(s.drop_last()), s.last())
    }
}

proof fn lemma_insert_match_at(s: Seq<SpecMatch>, c: SpecMatch, p: int)
    requires
        0 <= p <= s.len(),
        forall|k: int| p <= k < s.len() ==> !match_le(#[trigger] s[k], c),
        p > 0 ==> match_le(s[p - 1], c),
    ensures
        spec_insert_match(s, c) == s.subrange(0, p).push(c) + s.subrange(p, s.len() as int),
    decreases s.len(),
{
    if s.len() == 0 {
        assert(spec_insert_match(s, c) =~= s.subrange(0, p).push(c) + s.subrange(
            p,
            s.len() as int,
        ));
    } else if p == s.len() {
        assert(s.subrange(0, p) =~= s);
        assert(s.subrange(p, s.len() as int) =~= Seq::<SpecMatch>::empty());
        assert(s.push(c) =~= s.subrange(0, p).push(c) + s.subrange(p, s.len() as int));
    } else {
        let t = s.drop_last();
        lemma_insert_match_at(t, c, p);
        assert(t.subrange(0, p) =~= s.subrange(0, p));
        assert(spec_insert_match(t, c).push(s.last()) =~= s.subrange(0, p).push(c) + s.subrange(
            p,
            s.len() as int,
        ));
    }
}

proof fn lemma_insert_match_wf(s: Seq<SpecMatch>, c: SpecMatch, len: int)
    requires
        forall|k: int| 0 <= k < s.len() ==> (#[trigger] s[k]).wf(len),
        c.wf(len),
    ensures
        forall|k: int| 0 <= k < spec_insert_match(s, c).len() ==> (#[trigger] spec_insert_match(
            s,
            c,
        )[k]).wf(len),
    decreases s.len(),
{
    if s.len() == 0 {
        assert(spec_insert_match(s, c) =~= seq![c]);
        assert(forall|k: int|
            0 <= k < spec_insert_match(s, c).len() ==> (#[trigger] spec_insert_match(s, c)[k])
                == c);
    } else if match_le(s.last(), c) {
        assert(spec_insert_match(s, c) == s.push(c));
    } else {
        assert(forall|k: int| 0 <= k < s.drop_last().len() ==> (#[trigger] s.drop_last()[k]).wf(
            len,
        ));
        lemma_insert_match_wf(s.drop_last(), c, len);
        assert(spec_insert_match(s, c) == spec_insert_match(s.drop_last(), c).push(s.last()));
    }
}

fn insert_match(out: &mut Vec<InlineMatch>, c: InlineMatch)
    ensures
        match_views(final(out)@) == spec_insert_match(match_views(old(out)@), c.m()),
{
    let mut p: usize = out.len();
    while p > 0 && !(out[p - 1].start <= c.start)
        invariant
            p <= out@.len(),
            out@ == old(out)@,
            forall|k: int|
                p <= k < out@.len() ==> !match_le(#[trigger] match_views(out@)[k], c.m()),
        decreases p,
    {
        proof {
            assert(match_views(out@)[p - 1] == out@[p - 1].m());
        }
        p -= 1;
    }
    proof {
        if p > 0 {
            assert(match_views(out@)[p - 1] == out@[p - 1].m());
        }
        lemma_insert_match_at(match_views(out@), c.m(), p as int);
    }
    let ghost pre = match_views(out@);
    out.insert(p, c);
    proof {
        assert(match_views(out@) =~= pre.subrange(0, p as int).push(c.m()) + pre.subrange(
            p as int,
            pre.len() as int,
        ));
    }
}

#[verifier::loop_isolation(false)]
#[verifier::rlimit(100)]
fn sort_matches(ms: Vec<InlineMatch>, Ghost(len): Ghost<int>) -> (r: Vec<InlineMatch>)
    requires
        forall|k: int| 0 <= k < ms@.len() ==> (#[trigger] ms@[k]).m().wf(len),
    ensures
        match_views(r@) == spec_sort_matches(match_views(ms@)),
        forall|k: int| 0 <= k < r@.len() ==> (#[trigger] r@[k]).m().wf(len),
{
    let ghost all = match_views(ms@);
    let mut rest = ms;
    let total = rest.len();
    let mut out: Vec<InlineMatch> = Vec::new();
    proof {
        assert(match_views(rest@) =~= all.skip(0));
        assert(all.subrange(0, 0) =~= Seq::<SpecMatch>::empty());
    }
    let mut i: usize = 0;
    while rest.len() > 0
        invariant
            total == all.len(),
            i + rest@.len() == all.len(),
            match_views(rest@) == all.skip(i as int),
            forall|k: int| 0 <= k < all.len() ==> (#[trigger] all[k]).wf(len),
            match_views(out@) == spec_sort_matches(all.subrange(0, i as int)),
            forall|k: int| 0 <= k < out@.len() ==> (#[trigger] out@[k]).m().wf(len),
        decreases rest@.len(),
    {
        let ghost restv = match_views(rest@);
        let c = rest.remove(0);
        proof {
            assert(c.m() == restv[0]);
            assert(restv[0] == all[i as int]);
            assert(match_views(rest@) =~= restv.drop_first());
            assert(restv.drop_first() =~= all.skip(i + 1));
            lemma_insert_match_wf(match_views(out@), c.m(), len);
        }
        insert_match(&mut out, c);
        proof {
            let pre = all.subrange(0, i as int);
            let cur = all.subrange(0, i + 1);
            assert(cur.drop_last() =~= pre);
            assert(cur.last() == all[i as int]);
            assert(forall|k: int|
                0 <= k < out@.len() ==> (#[trigger] out@[k]).m() == match_views(out@)[k]);
        }
        i += 1;
    }
    proof {
        assert(all.subrange(0, all.len() as int) =~= all);
    }
    out
}

/// Greedy left-to-right selection: a match survives iff it starts at or
/// after the end of the previously kept one.
pub open spec fn spec_greedy(ms: Seq<SpecMatch>, i: int, last_end: int) -> Seq<SpecMatch>
    decreases ms.len() - i,
{
    if !(0 <= i < ms.len()) {
        Seq::empty()
    } else if ms[i].start >= last_end {
        seq![ms[i]] + spec_greedy(ms, i + 1, ms[i].end)
    } else {
        spec_greedy(ms, i + 1, last_end)
    }
}

proof fn lemma_greedy_props(ms: Seq<SpecMatch>, i: int, last_end: int, len: int)
    requires
        forall|k: int| 0 <= k < ms.len() ==> (#[trigger] ms[k]).wf(len),
    ensures
        ({
            let g = spec_greedy(ms, i, last_end);
            &&& forall|k: int| 0 <= k < g.len() ==> (#[trigger] g[k]).wf(len)
            &&& (g.len() > 0 ==> g[0].start >= last_end)
            &&& forall|k: int| 0 <= k && k + 1 < g.len() ==> (#[trigger] g[k]).end <= g[k + 1].start
        }),
    decreases ms.len() - i,
{
    if 0 <= i < ms.len() {
        if ms[i].start >= last_end {
            lemma_greedy_props(ms, i + 1, ms[i].end, len);
        } else {
            lemma_greedy_props(ms, i + 1, last_end, len);
        }
    }
}

#[verifier::loop_isolation(false)]
#[verifier::rlimit(100)]
fn filter_disjoint(ms: Vec<InlineMatch>, Ghost(len): Ghost<int>) -> (r: Vec<InlineMatch>)
    requires
        forall|k: int| 0 <= k < ms@.len() ==> (#[trigger] ms@[k]).m().wf(len),
    ensures
        match_views(r@) == spec_greedy(match_views(ms@), 0, 0),
        forall|k: int| 0 <= k < r@.len() ==> (#[trigger] r@[k]).m().wf(len),
        r@.len() > 0 ==> r@[0].m().start >= 0,
        forall|k: int|
            0 <= k && k + 1 < r@.len() ==> (#[trigger] r@[k]).m().end <= r@[k + 1].m().start,
{
    let ghost all = match_views(ms@);
    let mut rest = ms;
    let total = rest.len();
    let mut out: Vec<InlineMatch> = Vec::new();
    let mut last_end: usize = 0;
    proof {
        assert(match_views(rest@) =~= all.skip(0));
        assert(match_views(out@) =~= Seq::<SpecMatch>::empty());
        lemma_greedy_props(all, 0, 0, len);
    }
    let mut i: usize = 0;
    while rest.len() > 0
        invariant
            total == all.len(),
            i + rest@.len() == all.len(),
            match_views(rest@) == all.skip(i as int),
            forall|k: int| 0 <= k < all.len() ==> (#[trigger] all[k]).wf(len),
            forall|k: int| 0 <= k < out@.len() ==> (#[trigger] out@[k]).m().wf(len),
            forall|k: int|
                0 <= k && k + 1 < out@.len() ==> (#[trigger] out@[k]).m().end <= out@[k
                    + 1].m().start,
            out@.len() > 0 ==> out@.last().m().end == last_end,
            spec_greedy(all, 0, 0) == match_views(out@) + spec_greedy(
                all,
                i as int,
                last_end as int,
            ),
        decreases rest@.len(),
    {
        let ghost restv = match_views(rest@);
        let c = rest.remove(0);
        proof {
            assert(c.m() == restv[0]);
            assert(restv[0] == all[i as int]);
            assert(match_views(rest@) =~= restv.drop_first());
            assert(restv.drop_first() =~= all.skip(i + 1));
        }
        if c.start >= last_end {
            let ghost pre = match_views(out@);
            let e = c.end;
            out.push(c);
            last_end = e;
            proof {
                assert(match_views(out@) =~= pre.push(out@.last().m()));
                assert(spec_greedy(all, 0, 0) =~= match_views(out@) + spec_greedy(
                    all,
                    i + 1,
                    last_end as int,
                ));
            }
        }
        i += 1;
    }
    out
}

// ---------------------------------------------------------------------------
// Rendering.
// ---------------------------------------------------------------------------

/// One accepted match rendered: with the caret inside a hiding span both
/// tokens stay visible under a visible-token class; away from the caret
/// they hide under a hidden-token class; a non-hiding span is wrapped
/// whole, or passed through raw while the caret sits inside it. An image
/// preview follows the span.
pub open spec fn spec_render_match(line: Seq<u8>, m: SpecMatch, caret: Option<int>) -> Seq<u8> {
    let caret_inside = match caret {
        Some(c) => m.start <= c <= m.end,
        None => false,
    };
    let core = if caret_inside && m.hide_tokens {
        "<span class=\"md-token md-token-visible\">".spec_bytes() + spec_escape_range(
            line,
            m.start,
            m.start + m.open_len,
        ) + "</span><span class=\"".spec_bytes() + m.class + "\">".spec_bytes()
            + spec_escape_range(line, m.inner_start, m.inner_end)
            + "</span><span class=\"md-token md-token-visible\">".spec_bytes()
            + spec_escape_range(line, m.end - m.close_len, m.end) + "</span>".spec_bytes()
    } else if caret_inside {
        spec_escape_range(line, m.start, m.end)
    } else if m.hide_tokens {
        "<span class=\"md-token md-token-hidden\">".spec_bytes() + spec_escape_range(
            line,
            m.start,
            m.start + m.open_len,
        ) + "</span><span class=\"".spec_bytes() + m.class + "\">".spec_bytes()
            + spec_escape_range(line, m.inner_start, m.inner_end)
            + "</span><span class=\"md-token md-token-hidden\">".spec_bytes()
            + spec_escape_range(line, m.end - m.close_len, m.end) + "</span>".spec_bytes()
    } else {
        "<span class=\"".spec_bytes() + m.class + "\">".spec_bytes() + spec_escape_range(
            line,
            m.start,
            m.end,
        ) + "</span>".spec_bytes()
    };
    match m.preview {
        Some(p) => core + p,
        None => core,
    }
}

/// The line rendered around the kept matches: escaped plain text between
/// them, each match rendered in place.
pub open spec fn spec_render_matches(
    line: Seq<u8>,
    ms: Seq<SpecMatch>,
    i: int,
    pos: int,
    caret: Option<int>,
) -> Seq<u8>
    decreases ms.len() - i,
{
    if !(0 <= i < ms.len()) {
        spec_escape_range(line, pos, line.len() as int)
    } else {
        spec_escape_range(line, pos, ms[i].start) + spec_render_match(line, ms[i], caret)
            + spec_render_matches(line, ms, i + 1, ms[i].end, caret)
    }
}

/// Renders one accepted match.
#[verifier::rlimit(100)]
#[verifier::spinoff_prover]
fn render_match(out: &mut Vec<u8>, line: &Vec<u8>, m: &InlineMatch, caret: Option<usize>)
    requires
        m.m().wf(line@.len() as int),
    ensures
        final(out)@ == old(out)@ + spec_render_match(
            line@,
            m.m(),
            match caret {
                Some(c) => Some(c as int),
                None => None,
            },
        ),
{
    let ghost cv: Option<int> = match caret {
        Some(c) => Some(c as int),
        None => None,
    };
    let caret_inside = match caret {
        Some(c) => m.start <= c && c <= m.end,
        None => false,
    };
    let ghost pre = out@;
    if caret_inside && m.hide_tokens {
        push_str_bytes(out, "<span class=\"md-token md-token-visible\">");
        push_escaped_range(out, line, m.start, m.start + m.open_len);
        push_str_bytes(out, "</span><span class=\"");
        push_str_bytes(out, m.class);
        push_str_bytes(out, "\">");
        push_escaped_range(out, line, m.inner_start, m.inner_end);
        push_str_bytes(out, "</span><span class=\"md-token md-token-visible\">");
        push_escaped_range(out, line, m.end - m.close_len, m.end);
        push_str_bytes(out, "</span>");
        proof {
            assert(out@ =~= pre + ("<span class=\"md-token md-token-visible\">".spec_bytes()
                + spec_escape_range(line@, m.m().start, m.m().start + m.m().open_len)
                + "</span><span class=\"".spec_bytes() + m.m().class + "\">".spec_bytes()
                + spec_escape_range(line@, m.m().inner_start, m.m().inner_end)
                + "</span><span class=\"md-token md-token-visible\">".spec_bytes()
                + spec_escape_range(line@, m.m().end - m.m().close_len, m.m().end)
                + "</span>".spec_bytes()));
        }
    } else if caret_inside {
        push_escaped_range(out, line, m.start, m.end);
        proof {
            assert(out@ =~= pre + spec_escape_range(line@, m.m().start, m.m().end));
        }
    } else if m.hide_tokens {
        push_str_bytes(out, "<span class=\"md-token md-token-hidden\">");
        push_escaped_range(out, line, m.start, m.start + m.open_len);
        push_str_bytes(out, "</span><span class=\"");
        push_str_bytes(out, m.class);
        push_str_bytes(out, "\">");
        push_escaped_range(out, line, m.inner_start, m.inner_end);
        push_str_bytes(out, "</span><span class=\"md-token md-token-hidden\">");
        push_escaped_range(out, line, m.end - m.close_len, m.end);
        push_str_bytes(out, "</span>");
        proof {
            assert(out@ =~= pre + ("<span class=\"md-token md-token-hidden\">".spec_bytes()
                + spec_escape_range(line@, m.m().start, m.m().start + m.m().open_len)
                + "</span><span class=\"".spec_bytes() + m.m().class + "\">".spec_bytes()
                + spec_escape_range(line@, m.m().inner_start, m.m().inner_end)
                + "</span><span class=\"md-token md-token-hidden\">".spec_bytes()
                + spec_escape_range(line@, m.m().end - m.m().close_len, m.m().end)
                + "</span>".spec_bytes()));
        }
    } else {
        push_str_bytes(out, "<span class=\"");
        push_str_bytes(out, m.class);
        push_str_bytes(out, "\">");
        push_escaped_range(out, line, m.start, m.end);
        push_str_bytes(out, "</span>");
        proof {
            assert(out@ =~= pre + ("<span class=\"".spec_bytes() + m.m().class
                + "\">".spec_bytes() + spec_escape_range(line@, m.m().start, m.m().end)
                + "</span>".spec_bytes()));
        }
    }
    match &m.preview_html {
        Some(p) => {
            push_bytes(out, p);
        },
        None => {},
    }
    proof {
        assert(out@ =~= pre + spec_render_match(line@, m.m(), cv));
    }
}

/// Renders the whole line around the kept matches.
#[verifier::loop_isolation(false)]
#[verifier::rlimit(100)]
fn render_line(line: &Vec<u8>, ms: &Vec<InlineMatch>, caret: Option<usize>) -> (r: Vec<u8>)
    requires
        forall|k: int| 0 <= k < ms@.len() ==> (#[trigger] ms@[k]).m().wf(line@.len() as int),
        ms@.len() > 0 ==> ms@[0].m().start >= 0,
        forall|k: int|
            0 <= k && k + 1 < ms@.len() ==> (#[trigger] ms@[k]).m().end <= ms@[k + 1].m().start,
    ensures
        r@ == spec_render_matches(
            line@,
            match_views(ms@),
            0,
            0,
            match caret {
                Some(c) => Some(c as int),
                None => None,
            },
        ),
{
    let ghost cv: Option<int> = match caret {
        Some(c) => Some(c as int),
        None => None,
    };
    let mut out: Vec<u8> = Vec::new();
    let mut pos: usize = 0;
    let mut i: usize = 0;
    while i < ms.len()
        invariant
            i <= ms@.len(),
            pos <= line@.len(),
            i < ms@.len() ==> pos <= ms@[i as int].m().start,
            spec_render_matches(line@, match_views(ms@), 0, 0, cv) == out@ + spec_render_matches(
                line@,
                match_views(ms@),
                i as int,
                pos as int,
                cv,
            ),
        decreases ms@.len() - i,
    {
        proof {
            assert(match_views(ms@)[i as int] == ms@[i as int].m());
        }
        push_escaped_range(&mut out, line, pos, ms[i].start);
        render_match(&mut out, line, &ms[i], caret);
        pos = ms[i].end;
        i += 1;
        proof {
            assert(spec_render_matches(line@, match_views(ms@), 0, 0, cv) =~= out@
                + spec_render_matches(line@, match_views(ms@), i as int, pos as int, cv));
        }
    }
    push_escaped_range(&mut out, line, pos, line.len());
    out
}

// ---------------------------------------------------------------------------
// The inline pass.
// ---------------------------------------------------------------------------

/// Every inline candidate of the line, folded in precedence order:
/// inline code first, then comments, the link and embed forms, emphasis
/// widest to narrowest, inline math, footnotes, tags and block
/// identifiers; a later candidate is dropped where it overlaps an
/// accepted one.
pub open spec fn spec_collect_inline(line: Seq<u8>, ctx: Option<SpecImageCtx>) -> Seq<SpecMatch> {
    let a0 = spec_add_all(
        Seq::empty(),
        spec_kind_matches(InlineKind::Code, line, 0, ctx),
        0,
    );
    let a1 = spec_add_all(
        a0,
        spec_delim_matches(line, "%%".spec_bytes(), "hl-comment".spec_bytes(), false, 0, None),
        0,
    );
    let a2 = spec_add_all(a1, spec_kind_matches(InlineKind::Embed, line, 0, ctx), 0);
    let a3 = spec_add_all(a2, spec_kind_matches(InlineKind::Wiki, line, 0, ctx), 0);
    let a4 = spec_add_all(a3, spec_kind_matches(InlineKind::MdImage, line, 0, ctx), 0);
    let a5 = spec_add_all(a4, spec_kind_matches(InlineKind::MdLink, line, 0, ctx), 0);
    let a6 = spec_add_all(
        a5,
        spec_delim_matches(
            line,
            "***".spec_bytes(),
            "hl-bold hl-italic".spec_bytes(),
            true,
            0,
            None,
        ),
        0,
    );
    let a7 = spec_add_all(
        a6,
        spec_delim_matches(
            line,
            "___".spec_bytes(),
            "hl-bold hl-italic".spec_bytes(),
            true,
            0,
            None,
        ),
        0,
    );
    let a8 = spec_add_all(
        a7,
        spec_delim_matches(line, "**".spec_bytes(), "hl-bold".spec_bytes(), true, 0, None),
        0,
    );
    let a9 = spec_add_all(
        a8,
        spec_delim_matches(line, "__".spec_bytes(), "hl-bold".spec_bytes(), true, 0, None),
        0,
    );
    let a10 = spec_add_all(
        a9,
        spec_delim_matches(line, "~~".spec_bytes(), "hl-strike".spec_bytes(), true, 0, None),
        0,
    );
    let a11 = spec_add_all(
        a10,
        spec_delim_matches(line, "==".spec_bytes(), "hl-mark".spec_bytes(), true, 0, None),
        0,
    );
    let a12 = spec_add_all(
        a11,
        spec_delim_matches(line, "*".spec_bytes(), "hl-italic".spec_bytes(), true, 0, None),
        0,
    );
    let a13 = spec_add_all(
        a12,
        spec_delim_matches(line, "_".spec_bytes(), "hl-italic".spec_bytes(), true, 0, None),
        0,
    );
    let a14 = spec_add_all(a13, spec_kind_matches(InlineKind::InlineMath, line, 0, ctx), 0);
    let a15 = spec_add_all(a14, spec_kind_matches(InlineKind::FootnoteRef, line, 0, ctx), 0);
    let a16 = spec_add_all(a15, spec_kind_matches(InlineKind::InlineFootnote, line, 0, ctx), 0);
    let a17 = spec_add_all(a16, spec_kind_matches(InlineKind::Tag, line, 0, ctx), 0);
    spec_add_all(a17, spec_kind_matches(InlineKind::BlockId, line, 0, ctx), 0)
}

/// The inline pass: candidates folded in precedence order, put in text
/// order, greedily kept disjoint, and rendered around escaped plain
/// text, with delimiter tokens shown or hidden by caret proximity.
pub open spec fn spec_highlight_inline(
    line: Seq<u8>,
    caret: Option<int>,
    ctx: Option<SpecImageCtx>,
) -> Seq<u8> {
    spec_render_matches(
        line,
        spec_greedy(spec_sort_matches(spec_collect_inline(line, ctx)), 0, 0),
        0,
        0,
        caret,
    )
}

/// Renders one line (with its trailing newline, if any) as annotated
/// markup, discovering inline spans and hiding or revealing their
/// delimiter tokens based on the caret position relative to the line.
pub fn highlight_inline(line: &Vec<u8>, caret: Option<usize>, ctx: Option<&ImageRenderContext>) -> (
    r: Vec<u8>)
    ensures
        r@ == spec_highlight_inline(
            line@,
            match caret {
                Some(c) => Some(c as int),
                None => None,
            },
            ctx_view(ctx),
        ),
{
    let ghost len = line@.len() as int;
    let mut acc: Vec<InlineMatch> = Vec::new();
    proof {
        assert(match_views(acc@) =~= Seq::<SpecMatch>::empty());
    }
    let ms = collect_kind(InlineKind::Code, line, ctx);
    add_all(&mut acc, ms, Ghost(len));
    let ms = collect_delimited(line, "%%", "hl-comment", false);
    add_all(&mut acc, ms, Ghost(len));
    let ms = collect_kind(InlineKind::Embed, line, ctx);
    add_all(&mut acc, ms, Ghost(len));
    let ms = collect_kind(InlineKind::Wiki, line, ctx);
    add_all(&mut acc, ms, Ghost(len));
    let ms = collect_kind(InlineKind::MdImage, line, ctx);
    add_all(&mut acc, ms, Ghost(len));
    let ms = collect_kind(InlineKind::MdLink, line, ctx);
    add_all(&mut acc, ms, Ghost(len));
    let ms = collect_delimited(line, "***", "hl-bold hl-italic", true);
    add_all(&mut acc, ms, Ghost(len));
    let ms = collect_delimited(line, "___", "hl-bold hl-italic", true);
    add_all(&mut acc, ms, Ghost(len));
    let ms = collect_delimited(line, "**", "hl-bold", true);
    add_all(&mut acc, ms, Ghost(len));
    let ms = collect_delimited(line, "__", "hl-bold", true);
    add_all(&mut acc, ms, Ghost(len));
    let ms = collect_delimited(line, "~~", "hl-strike", true);
    add_all(&mut acc, ms, Ghost(len));
    let ms = collect_delimited(line, "==", "hl-mark", true);
    add_all(&mut acc, ms, Ghost(len));
    let ms = collect_delimited(line, "*", "hl-italic", true);
    add_all(&mut acc, ms, Ghost(len));
    let ms = collect_delimited(line, "_", "hl-italic", true);
    add_all(&mut acc, ms, Ghost(len));
    let ms = collect_kind(InlineKind::InlineMath, line, ctx);
    add_all(&mut acc, ms, Ghost(len));
    let ms = collect_kind(InlineKind::FootnoteRef, line, ctx);
    add_all(&mut acc, ms, Ghost(len));
    let ms = collect_kind(InlineKind::InlineFootnote, line, ctx);
    add_all(&mut acc, ms, Ghost(len));
    let ms = collect_kind(InlineKind::Tag, line, ctx);
    add_all(&mut acc, ms, Ghost(len));
    let ms = collect_kind(InlineKind::BlockId, line, ctx);
    add_all(&mut acc, ms, Ghost(len));
    proof {
        assert(match_views(acc@) == spec_collect_inline(line@, ctx_view(ctx)));
    }
    let sorted = sort_matches(acc, Ghost(len));
    let kept = filter_disjoint(sorted, Ghost(len));
    render_line(line, &kept, caret)
}

// ---------------------------------------------------------------------------
// Block-level line classification.
// ---------------------------------------------------------------------------

/// The heading level of the line: one to six hash marks followed by
/// whitespace; zero where it is no heading.
pub open spec fn spec_heading_level(line: Seq<u8>) -> int {
    let h = spec_run_of(line, 35, 0);
    if 1 <= h <= 6 && h < line.len() && is_ws(line[h]) {
        h
    } else {
        0
    }
}

fn heading_level(line: &Vec<u8>) -> (r: usize)
    ensures
        r as int == spec_heading_level(line@),
{
    let h = run_of(line, 35, 0);
    if 1 <= h && h <= 6 && h < line.len() && byte_is_ws(line[h]) {
        h
    } else {
        0
    }
}

/// An ATX-style callout line: a quote marker, then `[!kind]` with an
/// optional fold sign.
pub open spec fn spec_is_callout(line: Seq<u8>) -> bool {
    let a = spec_ws_run(line, 0);
    if a < line.len() && line[a] == 62 {
        let b = a + 1 + spec_ws_run(line, a + 1);
        if b + 1 < line.len() && line[b] == 91 && line[b + 1] == 33 {
            let r = spec_id_run(line, b + 2);
            r >= 1 && b + 2 + r < line.len() && line[b + 2 + r] == 93
        } else {
            false
        }
    } else {
        false
    }
}

fn is_callout_line(line: &Vec<u8>) -> (r: bool)
    ensures
        r == spec_is_callout(line@),
{
    let n = line.len();
    let a = ws_run(line, 0);
    if a < n && line[a] == 62 {
        let w = ws_run(line, a + 1);
        let b = a + 1 + w;
        if n > 1 && b < n - 1 && line[b] == 91 && line[b + 1] == 33 {
            let r = id_run(line, b + 2);
            return r >= 1 && b + 2 + r < n && line[b + 2 + r] == 93;
        }
        return false;
    }
    false
}

/// A blockquote line: a quote marker followed by whitespace.
pub open spec fn spec_is_quote_line(line: Seq<u8>) -> bool {
    crate::commands::spec_quote_parse(line) is Some
}

fn is_quote_line(line: &Vec<u8>) -> (r: bool)
    ensures
        r == spec_is_quote_line(line@),
{
    let n = line.len();
    let a = ws_run(line, 0);
    if a < n && line[a] == 62 {
        let w = ws_run(line, a + 1);
        return w >= 1;
    }
    false
}

/// An ordered list line for the formatter: digits then a dot or closing
/// parenthesis, then whitespace.
pub open spec fn spec_is_ordered_line(line: Seq<u8>) -> bool {
    let a = spec_ws_run(line, 0);
    let d = spec_digit_run(line, a);
    d >= 1 && a + d < line.len() && (line[a + d] == 46 || line[a + d] == 41) && spec_ws_run(
        line,
        a + d + 1,
    ) >= 1
}

fn is_ordered_line(line: &Vec<u8>) -> (r: bool)
    ensures
        r == spec_is_ordered_line(line@),
{
    let n = line.len();
    let a = ws_run(line, 0);
    let d = digit_run(line, a);
    if d >= 1 && a + d < n && (line[a + d] == 46 || line[a + d] == 41) {
        let w = ws_run(line, a + d + 1);
        return w >= 1;
    }
    false
}

/// A footnote definition line: `[^id]:` then whitespace.
pub open spec fn spec_is_footnote_def(line: Seq<u8>) -> bool {
    let a = spec_ws_run(line, 0);
    if a + 1 < line.len() && line[a] == 91 && line[a + 1] == 94 {
        let j = spec_find_byte(line, 93, a + 2);
        j < line.len() && j > a + 2 && j + 1 < line.len() && line[j + 1] == 58 && spec_ws_run(
            line,
            j + 2,
        ) >= 1
    } else {
        false
    }
}

fn is_footnote_def_line(line: &Vec<u8>) -> (r: bool)
    ensures
        r == spec_is_footnote_def(line@),
{
    let n = line.len();
    let a = ws_run(line, 0);
    if n > 1 && a < n - 1 && line[a] == 91 && line[a + 1] == 94 {
        let j = find_byte(line, 93, a + 2);
        if j < n && j > a + 2 && j < n - 1 && line[j + 1] == 58 {
            let w = ws_run(line, j + 2);
            return w >= 1;
        }
        return false;
    }
    false
}

/// The marker scan of a horizontal rule: marker characters and inner
/// tabs or spaces, then only whitespace, with at least three markers.
pub open spec fn spec_hr_tail(line: Seq<u8>, i: int, c: u8, seen: int) -> bool
    decreases line.len() - i,
{
    if !(0 <= i < line.len()) {
        seen >= 3
    } else if line[i] == c {
        spec_hr_tail(line, i + 1, c, seen + 1)
    } else if line[i] == 9 || line[i] == 32 {
        spec_hr_tail(line, i + 1, c, seen)
    } else {
        seen >= 3 && spec_all_ws(line, i)
    }
}

/// A horizontal rule: up to three leading whitespace bytes, then at
/// least three stars, dashes or underscores spaced by tabs or spaces.
pub open spec fn spec_is_hr(line: Seq<u8>) -> bool {
    let a = spec_ws_run(line, 0);
    a <= 3 && a < line.len() && (line[a] == 42 || line[a] == 45 || line[a] == 95) && spec_hr_tail(
        line,
        a,
        line[a],
        0,
    )
}

#[verifier::loop_isolation(false)]
fn is_hr_line(line: &Vec<u8>) -> (r: bool)
    ensures
        r == spec_is_hr(line@),
{
    let n = line.len();
    let a = ws_run(line, 0);
    if !(a <= 3 && a < n && (line[a] == 42 || line[a] == 45 || line[a] == 95)) {
        return false;
    }
    let c = line[a];
    let mut i: usize = a;
    let mut seen: usize = 0;
    while i < n && (line[i] == c || line[i] == 9 || line[i] == 32)
        invariant
            a <= i <= n,
            n == line@.len(),
            seen <= i,
            spec_hr_tail(line@, a as int, c, 0) == spec_hr_tail(line@, i as int, c, seen as int),
        decreases n - i,
    {
        if line[i] == c {
            seen += 1;
        }
        i += 1;
    }
    if i >= n {
        return seen >= 3;
    }
    seen >= 3 && all_ws_from(line, i)
}

/// A table row: the first and last non-whitespace bytes are distinct
/// pipes.
pub open spec fn spec_is_table_row(line: Seq<u8>) -> bool {
    let a = spec_ws_run(line, 0);
    let b = crate::scan::spec_ws_run_back(line, line.len() as int);
    a < line.len() && line[a] == 124 && b - 1 > a && line[b - 1] == 124
}

fn is_table_row_line(line: &Vec<u8>) -> (r: bool)
    ensures
        r == spec_is_table_row(line@),
{
    let n = line.len();
    let a = ws_run(line, 0);
    let b = crate::scan::ws_run_back(line, n);
    a < n && line[a] == 124 && b >= 1 && b - 1 > a && line[b - 1] == 124
}

/// One alignment cell of a table separator: optional colons around at
/// least three dashes, surrounded by whitespace. Returns the position
/// after the cell.
pub open spec fn spec_tsep_cell(line: Seq<u8>, i: int) -> Option<int> {
    let a = i + spec_ws_run(line, i);
    let b = if a < line.len() && line[a] == 58 {
        a + 1
    } else {
        a
    };
    let d = spec_run_of(line, 45, b);
    if d >= 3 {
        let e = b + d;
        let f = if e < line.len() && line[e] == 58 {
            e + 1
        } else {
            e
        };
        Some(f + spec_ws_run(line, f))
    } else {
        None
    }
}

/// The cell chain of a table separator from `i` on: cells joined by
/// pipes, at least two in all, with an optional trailing pipe.
pub open spec fn spec_tsep_tail(line: Seq<u8>, i: int, ncells: int) -> bool
    decreases line.len() - i,
{
    if !(0 <= i < line.len()) {
        false
    } else {
        match spec_tsep_cell(line, i) {
            None => false,
            Some(j) => {
                if j >= line.len() {
                    ncells + 1 >= 2
                } else if line[j] == 124 {
                    let nxt0 = spec_max(i + 1, j + 1);
                    let nxt = if nxt0 > line.len() {
                        line.len() as int
                    } else {
                        nxt0
                    };
                    (spec_all_ws(line, j + 1) && ncells + 1 >= 2) || spec_tsep_tail(
                        line,
                        nxt,
                        ncells + 1,
                    )
                } else {
                    false
                }
            },
        }
    }
}

/// A table separator row: pipe-joined alignment cells.
pub open spec fn spec_is_tsep(line: Seq<u8>) -> bool {
    let a = spec_ws_run(line, 0);
    let st = if a < line.len() && line[a] == 124 {
        a + 1
    } else {
        a
    };
    spec_tsep_tail(line, st, 0)
}

fn tsep_cell(line: &Vec<u8>, i: usize) -> (r: Option<usize>)
    requires
        i <= line@.len(),
    ensures
        match r {
            Some(j) => spec_tsep_cell(line@, i as int) == Some(j as int) && i < j && j
                <= line@.len(),
            None => spec_tsep_cell(line@, i as int) is None,
        },
{
    let n = line.len();
    let w = ws_run(line, i);
    let a = i + w;
    let b = if a < n && line[a] == 58 {
        a + 1
    } else {
        a
    };
    let d = run_of(line, 45, b);
    if d >= 3 {
        let e = b + d;
        let f = if e < n && line[e] == 58 {
            e + 1
        } else {
            e
        };
        let w2 = ws_run(line, f);
        Some(f + w2)
    } else {
        None
    }
}

fn is_tsep_line(line: &Vec<u8>) -> (r: bool)
    ensures
        r == spec_is_tsep(line@),
{
    let n = line.len();
    let a = ws_run(line, 0);
    let st = if a < n && line[a] == 124 {
        a + 1
    } else {
        a
    };
    let mut i: usize = st;
    let mut ncells: usize = 0;
    loop
        invariant_except_break
            i <= n,
            n == line@.len(),
            ncells <= i,
            spec_is_tsep(line@) == spec_tsep_tail(line@, i as int, ncells as int),
        ensures
            true,
        decreases n - i,
    {
        if i >= n {
            return false;
        }
        match tsep_cell(line, i) {
            None => {
                return false;
            },
            Some(j) => {
                if j >= n {
                    return ncells + 1 >= 2;
                }
                if line[j] != 124 {
                    return false;
                }
                if ncells + 1 >= 2 && all_ws_from(line, j + 1) {
                    return true;
                }
                proof {
                    assert(!(spec_all_ws(line@, j + 1) && ncells + 1 >= 2));
                }
                i = j + 1;
                ncells += 1;
            },
        }
    }
}

/// A code fence opener: after indentation, at least three identical
/// backticks or tildes; yields the fence character and run length.
pub open spec fn spec_fence_open(line: Seq<u8>) -> Option<(u8, int)> {
    let a = spec_ws_run(line, 0);
    if a < line.len() && (line[a] == 96 || line[a] == 126) {
        let r = spec_run_of(line, line[a], a);
        if r >= 3 {
            Some((line[a], r))
        } else {
            None
        }
    } else {
        None
    }
}

fn fence_open(line: &Vec<u8>) -> (r: Option<(u8, usize)>)
    ensures
        match r {
            Some((m, l)) => spec_fence_open(line@) == Some((m, l as int)),
            None => spec_fence_open(line@) is None,
        },
{
    let n = line.len();
    let a = ws_run(line, 0);
    if a < n && (line[a] == 96 || line[a] == 126) {
        let m = line[a];
        let r = run_of(line, m, a);
        if r >= 3 {
            return Some((m, r));
        }
        return None;
    }
    None
}

/// A fence closer: the same character repeated at least the opening run
/// length, with only whitespace after it.
pub open spec fn spec_fence_close(line: Seq<u8>, m: u8, minl: int) -> bool {
    let a = spec_ws_run(line, 0);
    let r = spec_run_of(line, m, a);
    a < line.len() && line[a] == m && r >= minl && spec_all_ws(line, a + r)
}

fn fence_close(line: &Vec<u8>, m: u8, minl: usize) -> (r: bool)
    ensures
        r == spec_fence_close(line@, m, minl as int),
{
    let n = line.len();
    let a = ws_run(line, 0);
    if a < n && line[a] == m {
        let rr = run_of(line, m, a);
        return rr >= minl && all_ws_from(line, a + rr);
    }
    false
}

/// How many non-overlapping `%%` tokens the line holds.
pub open spec fn spec_pct_count(line: Seq<u8>, i: int) -> int
    decreases line.len() - i,
{
    if i < 0 || i + 2 > line.len() {
        0
    } else if line[i] == 37 && line[i + 1] == 37 {
        1 + spec_pct_count(line, i + 2)
    } else {
        spec_pct_count(line, i + 1)
    }
}

/// Whether the line holds an odd number of comment tokens, toggling the
/// comment block.
#[verifier::loop_isolation(false)]
fn pct_count_odd(line: &Vec<u8>) -> (r: bool)
    ensures
        r == (spec_pct_count(line@, 0) % 2 == 1),
{
    let n = line.len();
    if n < 2 {
        return false;
    }
    let mut i: usize = 0;
    let mut count: usize = 0;
    while i < n - 1
        invariant
            i <= n,
            n == line@.len(),
            n >= 2,
            count <= i,
            spec_pct_count(line@, 0) == count + spec_pct_count(line@, i as int),
        decreases n - i,
    {
        if line[i] == 37 && line[i + 1] == 37 {
            count += 1;
            i += 2;
        } else {
            i += 1;
        }
    }
    count % 2 == 1
}

/// Whether the trimmed line equals the literal.
fn trimmed_is(line: &Vec<u8>, s: &str) -> (r: bool)
    ensures
        r == (spec_trim(line@) == s.spec_bytes()),
{
    let t = trim_bytes(line);
    crate::scan::bytes_eq_str(&t, s)
}

// ---------------------------------------------------------------------------
// The block pass.
// ---------------------------------------------------------------------------

/// The line-machine state between lines.
pub ghost struct BlockState {
    pub fence: Option<(u8, int)>,
    pub in_math: bool,
    pub in_frontmatter: bool,
    pub frontmatter_possible: bool,
    pub in_comment: bool,
}

/// The state the document starts in: frontmatter may still open.
pub open spec fn initial_block_state() -> BlockState {
    BlockState {
        fence: None,
        in_math: false,
        in_frontmatter: false,
        frontmatter_possible: true,
        in_comment: false,
    }
}

/// A line wrapped under a block class.
pub open spec fn spec_wrap_line(class: Seq<u8>, html: Seq<u8>) -> Seq<u8> {
    "<span class=\"".spec_bytes() + class + "\">".spec_bytes() + html + "</span>".spec_bytes()
}

/// The block class wrapper of a classified line, in priority order:
/// callout, heading, horizontal rule, footnote definition, quote, task,
/// list, table; an unmatched line passes through unwrapped.
pub open spec fn spec_classify_line(line: Seq<u8>, html: Seq<u8>) -> Seq<u8> {
    if spec_is_callout(line) {
        spec_wrap_line("hl-callout".spec_bytes(), html)
    } else if spec_heading_level(line) == 1 {
        spec_wrap_line("hl-h1".spec_bytes(), html)
    } else if spec_heading_level(line) == 2 {
        spec_wrap_line("hl-h2".spec_bytes(), html)
    } else if spec_heading_level(line) == 3 {
        spec_wrap_line("hl-h3".spec_bytes(), html)
    } else if spec_heading_level(line) == 4 {
        spec_wrap_line("hl-h4".spec_bytes(), html)
    } else if spec_heading_level(line) == 5 {
        spec_wrap_line("hl-h5".spec_bytes(), html)
    } else if spec_heading_level(line) == 6 {
        spec_wrap_line("hl-h6".spec_bytes(), html)
    } else if spec_is_hr(line) {
        spec_wrap_line("hl-hr".spec_bytes(), html)
    } else if spec_is_footnote_def(line) {
        spec_wrap_line("hl-footnote-def".spec_bytes(), html)
    } else if spec_is_quote_line(line) {
        spec_wrap_line("hl-quote".spec_bytes(), html)
    } else if crate::commands::spec_task_parse(line) is Some {
        spec_wrap_line("hl-task".spec_bytes(), html)
    } else if spec_is_ordered_line(line) || crate::commands::spec_ul_parse(line) is Some {
        spec_wrap_line("hl-list".spec_bytes(), html)
    } else if spec_is_tsep(line) || spec_is_table_row(line) {
        spec_wrap_line("hl-table".spec_bytes(), html)
    } else {
        html
    }
}

/// The caret made line-relative: kept only where it falls inside this
/// line (including its newline).
pub open spec fn spec_caret_rel(caret: Option<int>, i: int, line_len: int) -> Option<int> {
    match caret {
        Some(c) => if i <= c < i + line_len {
            Some(c - i)
        } else {
            None
        },
        None => None,
    }
}

/// The markup one line contributes, given the state the block machine
/// is in when it reaches byte `i`.
pub open spec fn spec_line_chunk(
    text: Seq<u8>,
    i: int,
    st: BlockState,
    caret: Option<int>,
    ctx: Option<SpecImageCtx>,
) -> Seq<u8> {
    let e = spec_line_end(text, i);
    let le_incl = if e < text.len() {
        e + 1
    } else {
        e
    };
    let line_incl = text.subrange(i, le_incl);
    let line = text.subrange(i, e);
    let esc = spec_escape_range(line_incl, 0, line_incl.len() as int);
    match st.fence {
        Some((m, minl)) => spec_wrap_line("hl-codeblock".spec_bytes(), esc),
        None => {
            if st.in_math {
                spec_wrap_line("hl-math-block".spec_bytes(), esc)
            } else if st.in_frontmatter {
                spec_wrap_line("hl-frontmatter".spec_bytes(), esc)
            } else if st.in_comment {
                spec_wrap_line("hl-comment".spec_bytes(), esc)
            } else if st.frontmatter_possible && spec_trim(line) == "---".spec_bytes() {
                spec_wrap_line("hl-frontmatter".spec_bytes(), esc)
            } else if spec_fence_open(line) is Some {
                spec_wrap_line("hl-codeblock hl-code-fence".spec_bytes(), esc)
            } else if spec_trim(line) == "$$".spec_bytes() {
                spec_wrap_line("hl-math-block".spec_bytes(), esc)
            } else {
                spec_classify_line(
                    line,
                    spec_highlight_inline(
                        line_incl,
                        spec_caret_rel(caret, i, line_incl.len() as int),
                        ctx,
                    ),
                )
            }
        },
    }
}

/// The state the block machine is in after the line at byte `i`.
pub open spec fn spec_line_state(text: Seq<u8>, i: int, st: BlockState) -> BlockState {
    let e = spec_line_end(text, i);
    let line = text.subrange(i, e);
    match st.fence {
        Some((m, minl)) => BlockState {
            fence: if spec_fence_close(line, m, minl) {
                None
            } else {
                Some((m, minl))
            },
            ..st
        },
        None => {
            if st.in_math {
                BlockState { in_math: !(spec_trim(line) == "$$".spec_bytes()), ..st }
            } else if st.in_frontmatter {
                let closing = spec_trim(line) == "---".spec_bytes() || spec_trim(line)
                    == "...".spec_bytes();
                BlockState {
                    in_frontmatter: !closing,
                    frontmatter_possible: st.frontmatter_possible && !closing,
                    ..st
                }
            } else if st.in_comment {
                BlockState { in_comment: !(spec_pct_count(line, 0) % 2 == 1), ..st }
            } else if st.frontmatter_possible && spec_trim(line) == "---".spec_bytes() {
                BlockState { in_frontmatter: true, ..st }
            } else {
                let fp2 = st.frontmatter_possible && spec_trim(line).len() == 0;
                match spec_fence_open(line) {
                    Some((m, r)) => BlockState {
                        fence: Some((m, r)),
                        frontmatter_possible: fp2,
                        ..st
                    },
                    None => {
                        if spec_trim(line) == "$$".spec_bytes() {
                            BlockState { in_math: true, frontmatter_possible: fp2, ..st }
                        } else {
                            BlockState {
                                in_comment: spec_pct_count(line, 0) % 2 == 1,
                                frontmatter_possible: fp2,
                                ..st
                            }
                        }
                    },
                }
            }
        },
    }
}

/// The block pass from byte `i` on: each line contributes its chunk, and
/// the state machine follows fences, math blocks, frontmatter and
/// comment blocks across lines.
pub open spec fn spec_block_render(
    text: Seq<u8>,
    i: int,
    st: BlockState,
    caret: Option<int>,
    ctx: Option<SpecImageCtx>,
) -> Seq<u8>
    decreases text.len() - i,
{
    if !(0 <= i < text.len()) {
        Seq::empty()
    } else {
        let e = spec_line_end(text, i);
        let nxt0 = spec_max(i + 1, e + 1);
        let nxt = if nxt0 > text.len() {
            text.len() as int
        } else {
            nxt0
        };
        spec_line_chunk(text, i, st, caret, ctx) + spec_block_render(
            text,
            nxt,
            spec_line_state(text, i, st),
            caret,
            ctx,
        )
    }
}

/// The block pass over the whole text from its initial state.
pub open spec fn spec_highlight_markdown(
    text: Seq<u8>,
    caret: Option<int>,
    ctx: Option<SpecImageCtx>,
) -> Seq<u8> {
    spec_block_render(text, 0, initial_block_state(), caret, ctx)
}

/// Classifies and wraps one rendered line.
#[verifier::rlimit(100)]
fn classify_line(line: &Vec<u8>, html: Vec<u8>) -> (r: Vec<u8>)
    ensures
        r@ == spec_classify_line(line@, html@),
{
    let class: Option<&'static str> = if is_callout_line(line) {
        Some("hl-callout")
    } else {
        let h = heading_level(line);
        if h == 1 {
            Some("hl-h1")
        } else if h == 2 {
            Some("hl-h2")
        } else if h == 3 {
            Some("hl-h3")
        } else if h == 4 {
            Some("hl-h4")
        } else if h == 5 {
            Some("hl-h5")
        } else if h == 6 {
            Some("hl-h6")
        } else if is_hr_line(line) {
            Some("hl-hr")
        } else if is_footnote_def_line(line) {
            Some("hl-footnote-def")
        } else if is_quote_line(line) {
            Some("hl-quote")
        } else if crate::commands::task_parse(line).is_some() {
            Some("hl-task")
        } else if is_ordered_line(line) || crate::commands::ul_parse(line).is_some() {
            Some("hl-list")
        } else if is_tsep_line(line) || is_table_row_line(line) {
            Some("hl-table")
        } else {
            None
        }
    };
    match class {
        Some(c) => {
            let mut out: Vec<u8> = Vec::new();
            push_str_bytes(&mut out, "<span class=\"");
            push_str_bytes(&mut out, c);
            push_str_bytes(&mut out, "\">");
            push_bytes(&mut out, &html);
            push_str_bytes(&mut out, "</span>");
            proof {
                assert(out@ =~= spec_wrap_line(c.spec_bytes(), html@));
            }
            out
        },
        None => html,
    }
}

/// Appends one line wrapped under a block class.
fn push_wrapped_escaped(out: &mut Vec<u8>, class: &'static str, line_incl: &Vec<u8>)
    ensures
        final(out)@ == old(out)@ + spec_wrap_line(
            class.spec_bytes(),
            spec_escape_range(line_incl@, 0, line_incl@.len() as int),
        ),
{
    let ghost pre = out@;
    push_str_bytes(out, "<span class=\"");
    push_str_bytes(out, class);
    push_str_bytes(out, "\">");
    push_escaped_range(out, line_incl, 0, line_incl.len());
    push_str_bytes(out, "</span>");
    proof {
        assert(out@ =~= pre + spec_wrap_line(
            class.spec_bytes(),
            spec_escape_range(line_incl@, 0, line_incl@.len() as int),
        ));
    }
}

/// Renders markdown text as annotated markup: a line-oriented block
/// pass over frontmatter, fences, math and comment blocks and line
/// classes, with the inline pass applied to ordinary lines and the
/// caret revealing delimiter tokens near it.
#[verifier::loop_isolation(false)]
#[verifier::rlimit(100)]
#[verifier::spinoff_prover]
pub fn highlight_markdown(text: &Vec<u8>, caret: Option<usize>, ctx: Option<&ImageRenderContext>)
    -> (r: Vec<u8>)
    ensures
        r@ == spec_highlight_markdown(
            text@,
            match caret {
                Some(c) => Some(c as int),
                None => None,
            },
            ctx_view(ctx),
        ),
{
    let ghost cv: Option<int> = match caret {
        Some(c) => Some(c as int),
        None => None,
    };
    let n = text.len();
    let mut out: Vec<u8> = Vec::new();
    let mut i: usize = 0;
    let mut fence: Option<(u8, usize)> = None;
    let mut in_math = false;
    let mut in_frontmatter = false;
    let mut frontmatter_possible = true;
    let mut in_comment = false;
    while i < n
        invariant
            i <= n,
            n == text@.len(),
            spec_highlight_markdown(text@, cv, ctx_view(ctx)) == out@ + spec_block_render(
                text@,
                i as int,
                (BlockState {
                    fence: match fence {
                        Some((m, l)) => Some((m, l as int)),
                        None => None,
                    },
                    in_math: in_math,
                    in_frontmatter: in_frontmatter,
                    frontmatter_possible: frontmatter_possible,
                    in_comment: in_comment,
                }),
                cv,
                ctx_view(ctx),
            ),
        decreases n - i,
    {
        let ghost st = BlockState {
            fence: match fence {
                Some((m, l)) => Some((m, l as int)),
                None => None,
            },
            in_math: in_math,
            in_frontmatter: in_frontmatter,
            frontmatter_possible: frontmatter_possible,
            in_comment: in_comment,
        };
        let e = line_end(text, i);
        let le_incl = if e < n {
            e + 1
        } else {
            e
        };
        let next_i = le_incl;
        let line_incl = copy_range(text, i, le_incl);
        let line = copy_range(text, i, e);
        let line_incl_len = line_incl.len();
        proof {
            assert(spec_block_render(text@, i as int, st, cv, ctx_view(ctx))
                == spec_line_chunk(text@, i as int, st, cv, ctx_view(ctx)) + spec_block_render(
                text@,
                next_i as int,
                spec_line_state(text@, i as int, st),
                cv,
                ctx_view(ctx),
            ));
        }
        let ghost pre = out@;

        match fence {
            Some((m, minl)) => {
                push_wrapped_escaped(&mut out, "hl-codeblock", &line_incl);
                if fence_close(&line, m, minl) {
                    fence = None;
                }
            },
            None => {
                if in_math {
                    push_wrapped_escaped(&mut out, "hl-math-block", &line_incl);
                    if trimmed_is(&line, "$$") {
                        in_math = false;
                    }
                } else if in_frontmatter {
                    push_wrapped_escaped(&mut out, "hl-frontmatter", &line_incl);
                    if trimmed_is(&line, "---") || trimmed_is(&line, "...") {
                        in_frontmatter = false;
                        frontmatter_possible = false;
                    }
                } else if in_comment {
                    push_wrapped_escaped(&mut out, "hl-comment", &line_incl);
                    if pct_count_odd(&line) {
                        in_comment = false;
                    }
                } else if frontmatter_possible && trimmed_is(&line, "---") {
                    push_wrapped_escaped(&mut out, "hl-frontmatter", &line_incl);
                    in_frontmatter = true;
                } else {
                    if frontmatter_possible && !trim_bytes(&line).is_empty() {
                        frontmatter_possible = false;
                    }
                    match fence_open(&line) {
                        Some((m, r)) => {
                            push_wrapped_escaped(
                                &mut out,
                                "hl-codeblock hl-code-fence",
                                &line_incl,
                            );
                            fence = Some((m, r));
                        },
                        None => {
                            if trimmed_is(&line, "$$") {
                                push_wrapped_escaped(&mut out, "hl-math-block", &line_incl);
                                in_math = true;
                            } else {
                                let caret_rel: Option<usize> = match caret {
                                    Some(c) => if i <= c && c < i + line_incl_len {
                                        Some(c - i)
                                    } else {
                                        None
                                    },
                                    None => None,
                                };
                                let html = highlight_inline(&line_incl, caret_rel, ctx);
                                let wrapped = classify_line(&line, html);
                                push_bytes(&mut out, &wrapped);
                                if pct_count_odd(&line) {
                                    in_comment = true;
                                }
                            }
                        },
                    }
                }
            },
        }
        proof {
            assert(out@ =~= pre + spec_line_chunk(text@, i as int, st, cv, ctx_view(ctx)));
            let st2 = BlockState {
                fence: match fence {
                    Some((m, l)) => Some((m, l as int)),
                    None => None,
                },
                in_math: in_math,
                in_frontmatter: in_frontmatter,
                frontmatter_possible: frontmatter_possible,
                in_comment: in_comment,
            };
            assert(st2 == spec_line_state(text@, i as int, st));
        }
        i = next_i;
    }
    out
}

/// Renders a note for the editor: with a vault and note path the image
/// cache is consulted for previews; without them formatting proceeds
/// with no image context.
pub fn highlight_markdown_for_editor(
    text: &Vec<u8>,
    caret: Option<usize>,
    vault_path: &Vec<u8>,
    current_file: &Vec<u8>,
    image_cache: &Vec<(Vec<u8>, Vec<u8>)>,
) -> (r: Vec<u8>)
    ensures
        ({
            let cv = match caret {
                Some(c) => Some(c as int),
                None => None,
            };
            if vault_path@.len() == 0 || current_file@.len() == 0 {
                r@ == spec_highlight_markdown(text@, cv, None)
            } else {
                r@ == spec_highlight_markdown(
                    text@,
                    cv,
                    Some(
                        SpecImageCtx {
                            vault: vault_path@,
                            file: current_file@,
                            cache: image_cache@.map_values(|p: (Vec<u8>, Vec<u8>)| (p.0@, p.1@)),
                        },
                    ),
                )
            }
        }),
{
    if vault_path.len() == 0 || current_file.len() == 0 {
        return highlight_markdown(text, caret, None);
    }
    let ctx = ImageRenderContext {
        vault_path: copy_range(vault_path, 0, vault_path.len()),
        current_file: copy_range(current_file, 0, current_file.len()),
        cache: clone_cache(image_cache),
    };
    proof {
        assert(ctx.vault_path@ =~= vault_path@);
        assert(ctx.current_file@ =~= current_file@);
    }
    highlight_markdown(text, caret, Some(&ctx))
}

/// A copy of the host's image cache.
#[verifier::loop_isolation(false)]
fn clone_cache(cache: &Vec<(Vec<u8>, Vec<u8>)>) -> (r: Vec<(Vec<u8>, Vec<u8>)>)
    ensures
        r@.map_values(|p: (Vec<u8>, Vec<u8>)| (p.0@, p.1@)) == cache@.map_values(
            |p: (Vec<u8>, Vec<u8>)| (p.0@, p.1@),
        ),
{
    let mut out: Vec<(Vec<u8>, Vec<u8>)> = Vec::new();
    let mut i: usize = 0;
    while i < cache.len()
        invariant
            i <= cache@.len(),
            out@.len() == i,
            forall|k: int|
                0 <= k < i ==> (#[trigger] out@[k]).0@ == cache@[k].0@ && out@[k].1@
                    == cache@[k].1@,
        decreases cache@.len() - i,
    {
        let k = copy_range(&cache[i].0, 0, cache[i].0.len());
        let v = copy_range(&cache[i].1, 0, cache[i].1.len());
        proof {
            assert(k@ =~= cache@[i as int].0@);
            assert(v@ =~= cache@[i as int].1@);
        }
        out.push((k, v));
        i += 1;
    }
    proof {
        assert(out@.map_values(|p: (Vec<u8>, Vec<u8>)| (p.0@, p.1@)) =~= cache@.map_values(
            |p: (Vec<u8>, Vec<u8>)| (p.0@, p.1@),
        ));
    }
    out
}

#[verifier::loop_isolation(false)]
fn first_cached(cands: &Vec<Vec<u8>>, cache: &Vec<(Vec<u8>, Vec<u8>)>) -> (r: Option<Vec<u8>>)
    ensures
        ({
            let cv = cache@.map_values(|p: (Vec<u8>, Vec<u8>)| (p.0@, p.1@));
            match r {
                Some(v) => spec_first_cached(seq_views(cands@), cv) == Some(v@),
                None => spec_first_cached(seq_views(cands@), cv) is None,
            }
        }),
{
    let ghost cv = cache@.map_values(|p: (Vec<u8>, Vec<u8>)| (p.0@, p.1@));
    let ghost views = seq_views(cands@);
    proof {
        assert(views.skip(0) =~= views);
    }
    let mut i: usize = 0;
    while i < cands.len()
        invariant
            i <= cands@.len(),
            cv == cache@.map_values(|p: (Vec<u8>, Vec<u8>)| (p.0@, p.1@)),
            views == seq_views(cands@),
            spec_first_cached(views, cv) == spec_first_cached(views.skip(i as int), cv),
        decreases cands@.len() - i,
    {
        proof {
            assert(views.skip(i as int)[0] == views[i as int]);
            assert(views.skip(i as int).drop_first() =~= views.skip(i + 1));
        }
        match cache_lookup(cache, &cands[i]) {
            Some(v) => {
                return Some(v);
            },
            None => {},
        }
        i += 1;
    }
    proof {
        assert(views.skip(i as int).len() == 0);
    }
    None
}

} // verus!
