//! Metadata indexer: extracts headings, tags and links from each note
//! and builds the vault-wide link graph — resolved and unresolved link
//! counts per note, backlinks per target and a note index per tag. The
//! whole index is a deterministic pure function of the note paths and
//! their texts, recomputed in full.

use vstd::prelude::*;
use vstd::string::StringSliceAdditionalSpecFns;
use crate::editor::{copy_range, push_bytes, bytes_eq};
use crate::scan::{
    spec_run_of, spec_find_byte, spec_line_end, spec_lower_seq, spec_run_back, run_of, find_byte,
    line_end, lower_bytes, push_str_bytes, run_back,
};
use crate::paths::{
    spec_max, spec_trim, spec_normalize_rel_path, spec_ends_md, spec_file_stem, spec_contains,
    spec_bytes_le, spec_rfind_byte, trim_bytes, normalize_rel_path, file_stem_of, bytes_le,
    contains_str, matches_at, rfind_byte,
};
use crate::format::{
    InlineKind, spec_kind_at, spec_find2, kind_at, find2, spec_cache_lookup,
};

verus! {

/// One heading of a note: its depth, trimmed text, and one-based line
/// number.
pub struct HeadingCache {
    pub level: u8,
    pub text: Vec<u8>,
    pub line: usize,
}

/// The mathematical value of a heading entry.
pub ghost struct SpecHeading {
    pub level: int,
    pub text: Seq<u8>,
    pub line: int,
}

impl HeadingCache {
    /// The heading as a mathematical value.
    pub open spec fn v(self) -> SpecHeading {
        SpecHeading { level: self.level as int, text: self.text@, line: self.line as int }
    }
}

/// What one note contributes to the index, derived purely from its
/// text.
pub struct FileCache {
    pub headings: Vec<HeadingCache>,
    pub tags: Vec<Vec<u8>>,
    pub links: Vec<Vec<u8>>,
}

/// The mathematical value of a note's cache.
pub ghost struct SpecFileCache {
    pub headings: Seq<SpecHeading>,
    pub tags: Seq<Seq<u8>>,
    pub links: Seq<Seq<u8>>,
}

impl FileCache {
    /// The cache as a mathematical value.
    pub open spec fn v(self) -> SpecFileCache {
        SpecFileCache {
            headings: self.headings@.map_values(|h: HeadingCache| h.v()),
            tags: crate::paths::seq_views(self.tags@),
            links: crate::paths::seq_views(self.links@),
        }
    }
}

// ---------------------------------------------------------------------------
// Heading extraction.
// ---------------------------------------------------------------------------

/// How many spaces or tabs run from `i`.
pub open spec fn spec_st_run(s: Seq<u8>, i: int) -> int
    decreases s.len() - i,
{
    if i < 0 || i >= s.len() || !(s[i] == 32 || s[i] == 9) {
        0
    } else {
        1 + spec_st_run(s, i + 1)
    }
}

#[verifier::loop_isolation(false)]
fn st_run(s: &Vec<u8>, from: usize) -> (r: usize)
    requires
        from <= s@.len(),
    ensures
        r as int == spec_st_run(s@, from as int),
        from + r <= s@.len(),
{
    let mut i: usize = from;
    while i < s.len() && (s[i] == 32 || s[i] == 9)
        invariant
            from <= i <= s@.len(),
            spec_st_run(s@, from as int) == i - from + spec_st_run(s@, i as int),
        decreases s@.len() - i,
    {
        i += 1;
    }
    i - from
}

/// A heading line: one to six hash marks, at least one space or tab,
/// and a non-empty rest; yields the level and the trimmed text.
pub open spec fn spec_heading_parse(line: Seq<u8>) -> Option<(int, Seq<u8>)> {
    let h = spec_run_of(line, 35, 0);
    let w = spec_st_run(line, h);
    if 1 <= h <= 6 && w >= 1 && h + w < line.len() {
        Some((h, spec_trim(line.subrange(h + w, line.len() as int))))
    } else {
        None
    }
}

fn heading_parse(line: &Vec<u8>) -> (r: Option<(u8, Vec<u8>)>)
    ensures
        match r {
            Some((lvl, t)) => spec_heading_parse(line@) == Some((lvl as int, t@)),
            None => spec_heading_parse(line@) is None,
        },
{
    let n = line.len();
    let h = run_of(line, 35, 0);
    let w = st_run(line, h);
    if 1 <= h && h <= 6 && w >= 1 && h + w < n {
        let rest = copy_range(line, h + w, n);
        let t = trim_bytes(&rest);
        Some((h as u8, t))
    } else {
        None
    }
}

/// One line of a note as `str::lines` yields it: up to the next newline
/// with a trailing carriage return stripped.
pub open spec fn spec_note_line(text: Seq<u8>, i: int) -> Seq<u8> {
    let e = spec_line_end(text, i);
    let e2 = if e > i && e - 1 >= 0 && e - 1 < text.len() && text[e - 1] == 13 {
        e - 1
    } else {
        e
    };
    text.subrange(i, e2)
}

/// The headings of the text from byte `i` on, numbering lines from
/// `lineno`.
pub open spec fn spec_headings_from(text: Seq<u8>, i: int, lineno: int) -> Seq<SpecHeading>
    decreases text.len() - i,
{
    if !(0 <= i < text.len()) {
        Seq::empty()
    } else {
        let e = spec_line_end(text, i);
        let nxt0 = spec_max(i + 1, e + 1);
        let nxt = if nxt0 > text.len() {
            text.len() as int
        } else {
            nxt0
        };
        let rest = spec_headings_from(text, nxt, lineno + 1);
        match spec_heading_parse(spec_note_line(text, i)) {
            Some((lvl, t)) => seq![SpecHeading { level: lvl, text: t, line: lineno }] + rest,
            None => rest,
        }
    }
}

/// The lowercased tags of the line from `i` on, in order of
/// appearance.
pub open spec fn spec_line_tags_from(line: Seq<u8>, i: int) -> Seq<Seq<u8>>
    decreases line.len() - i,
{
    if !(0 <= i < line.len()) {
        Seq::empty()
    } else {
        match crate::format::spec_kind_at(InlineKind::Tag, line, i, None) {
            Some(m) => {
                let nxt0 = spec_max(i + 1, m.end);
                let nxt = if nxt0 > line.len() {
                    line.len() as int
                } else {
                    nxt0
                };
                seq![spec_lower_seq(line.subrange(m.start + 1, m.end))] + spec_line_tags_from(
                    line,
                    nxt,
                )
            },
            None => spec_line_tags_from(line, i + 1),
        }
    }
}

/// The lowercased tags of one line, in order of appearance.
pub open spec fn spec_line_tags(line: Seq<u8>) -> Seq<Seq<u8>> {
    spec_line_tags_from(line, 0)
}

/// The tags of the text from byte `i` on, line by line.
pub open spec fn spec_tags_from(text: Seq<u8>, i: int) -> Seq<Seq<u8>>
    decreases text.len() - i,
{
    if !(0 <= i < text.len()) {
        Seq::empty()
    } else {
        let e = spec_line_end(text, i);
        let nxt0 = spec_max(i + 1, e + 1);
        let nxt = if nxt0 > text.len() {
            text.len() as int
        } else {
            nxt0
        };
        spec_line_tags(spec_note_line(text, i)) + spec_tags_from(text, nxt)
    }
}

// ---------------------------------------------------------------------------
// Link extraction.
// ---------------------------------------------------------------------------

/// The link a wiki inner text contributes: the part before any alias or
/// heading suffix, trimmed and normalized; nothing if that is empty.
pub open spec fn spec_wiki_link_of(inner: Seq<u8>) -> Option<Seq<u8>> {
    let left = inner.subrange(0, spec_find_byte(inner, 124, 0));
    let link = spec_trim(left.subrange(0, spec_find_byte(left, 35, 0)));
    if link.len() == 0 {
        None
    } else {
        Some(spec_normalize_rel_path(link))
    }
}

/// A buffer with all leading and trailing occurrences of `b` removed.
pub open spec fn spec_strip_byte_ends(s: Seq<u8>, b: u8) -> Seq<u8> {
    let lo = spec_run_of(s, b, 0);
    let hi = spec_run_back(s, b, s.len() as int);
    if lo >= hi {
        Seq::empty()
    } else {
        s.subrange(lo, hi)
    }
}

fn strip_byte_ends(s: &Vec<u8>, b: u8) -> (r: Vec<u8>)
    ensures
        r@ == spec_strip_byte_ends(s@, b),
{
    let lo = run_of(s, b, 0);
    let hi = run_back(s, b, s.len());
    if lo >= hi {
        proof {
            assert(Seq::<u8>::empty() =~= spec_strip_byte_ends(s@, b));
        }
        Vec::new()
    } else {
        copy_range(s, lo, hi)
    }
}

/// The link a markdown link or image target contributes: angle brackets
/// stripped, pure anchors, URLs and mail addresses skipped, fragment and
/// query suffixes cut, the rest trimmed and normalized.
pub open spec fn spec_md_link_of(raw: Seq<u8>) -> Option<Seq<u8>> {
    let t = spec_strip_byte_ends(spec_strip_byte_ends(spec_trim(raw), 60), 62);
    if t.len() == 0 || t[0] == 35 {
        None
    } else {
        let lowered = spec_lower_seq(t);
        if spec_contains(lowered, "://".spec_bytes()) || crate::paths::spec_starts_with(
            lowered,
            "mailto:".spec_bytes(),
        ) {
            None
        } else {
            let f = t.subrange(0, spec_find_byte(t, 35, 0));
            let q = f.subrange(0, spec_find_byte(f, 63, 0));
            let cleaned = spec_trim(q);
            if cleaned.len() == 0 {
                None
            } else {
                Some(spec_normalize_rel_path(cleaned))
            }
        }
    }
}

fn md_link_of(raw: &Vec<u8>) -> (r: Option<Vec<u8>>)
    ensures
        match r {
            Some(v) => spec_md_link_of(raw@) == Some(v@),
            None => spec_md_link_of(raw@) is None,
        },
{
    let t0 = trim_bytes(raw);
    let t1 = strip_byte_ends(&t0, 60);
    let t = strip_byte_ends(&t1, 62);
    if t.len() == 0 || t[0] == 35 {
        return None;
    }
    let lowered = lower_bytes(&t);
    if contains_str(&lowered, "://") {
        return None;
    }
    let mp = "mailto:".as_bytes();
    if lowered.len() >= mp.len() && matches_at(&lowered, 0, mp) {
        return None;
    }
    let f = copy_range(&t, 0, find_byte(&t, 35, 0));
    let q = copy_range(&f, 0, find_byte(&f, 63, 0));
    let cleaned = trim_bytes(&q);
    if cleaned.len() == 0 {
        return None;
    }
    Some(normalize_rel_path(&cleaned))
}

/// A markdown link or image occurrence starting at `i`: an optional
/// bang, a bracketed label free of newlines, and a parenthesized
/// non-empty target; yields the end of the whole occurrence and the
/// target's range.
pub open spec fn spec_mdany_at(text: Seq<u8>, i: int) -> Option<(int, int, int)> {
    let len = text.len() as int;
    let ls = if i < len && text[i] == 33 {
        if i + 1 < len && text[i + 1] == 91 {
            i + 2
        } else {
            -1
        }
    } else if i < len && text[i] == 91 {
        i + 1
    } else {
        -1
    };
    if ls < 0 {
        None
    } else {
        let j = spec_find2(text, 93, 10, ls);
        if j < len && text[j] == 93 && j + 1 < len && text[j + 1] == 40 {
            let k = spec_find2(text, 41, 10, j + 2);
            if k < len && text[k] == 41 && k > j + 2 {
                Some((k + 1, j + 2, k))
            } else {
                None
            }
        } else {
            None
        }
    }
}

/// All markdown link and image occurrences from `i` on, leftmost first
/// and non-overlapping.
pub open spec fn spec_mdany_matches(text: Seq<u8>, i: int) -> Seq<(int, int, int)>
    decreases text.len() - i,
{
    if !(0 <= i < text.len()) {
        Seq::empty()
    } else {
        match spec_mdany_at(text, i) {
            Some(m) => {
                let nxt0 = spec_max(i + 1, m.0);
                let nxt = if nxt0 > text.len() {
                    text.len() as int
                } else {
                    nxt0
                };
                seq![m] + spec_mdany_matches(text, nxt)
            },
            None => spec_mdany_matches(text, i + 1),
        }
    }
}

fn mdany_at(text: &Vec<u8>, i: usize) -> (r: Option<(usize, usize, usize)>)
    requires
        i < text@.len(),
    ensures
        match r {
            Some((e, ts, te)) => spec_mdany_at(text@, i as int) == Some(
                (e as int, ts as int, te as int),
            ) && i < e && e <= text@.len() && ts <= te && te < e,
            None => spec_mdany_at(text@, i as int) is None,
        },
{
    let n = text.len();
    let ls: usize = if text[i] == 33 {
        if i < n - 1 && text[i + 1] == 91 {
            i + 2
        } else {
            return None;
        }
    } else if text[i] == 91 {
        i + 1
    } else {
        return None;
    };
    let j = find2(text, 93, 10, ls);
    if j < n && text[j] == 93 && j < n - 1 && text[j + 1] == 40 {
        let k = find2(text, 41, 10, j + 2);
        if k < n && text[k] == 41 && k > j + 2 {
            return Some((k + 1, j + 2, k));
        }
        return None;
    }
    None
}

/// The wiki links of the text from `i` on, in order of appearance.
pub open spec fn spec_wiki_links_from(text: Seq<u8>, i: int) -> Seq<Seq<u8>>
    decreases text.len() - i,
{
    if !(0 <= i < text.len()) {
        Seq::empty()
    } else {
        match spec_kind_at(InlineKind::Wiki, text, i, None) {
            Some(m) => {
                let nxt0 = spec_max(i + 1, m.end);
                let nxt = if nxt0 > text.len() {
                    text.len() as int
                } else {
                    nxt0
                };
                (match spec_wiki_link_of(text.subrange(m.inner_start, m.inner_end)) {
                    Some(l) => seq![l],
                    None => Seq::empty(),
                }) + spec_wiki_links_from(text, nxt)
            },
            None => spec_wiki_links_from(text, i + 1),
        }
    }
}

/// The markdown link and image targets of the text from `i` on.
pub open spec fn spec_md_links_from(text: Seq<u8>, i: int) -> Seq<Seq<u8>>
    decreases text.len() - i,
{
    if !(0 <= i < text.len()) {
        Seq::empty()
    } else {
        match spec_mdany_at(text, i) {
            Some(m) => {
                let nxt0 = spec_max(i + 1, m.0);
                let nxt = if nxt0 > text.len() {
                    text.len() as int
                } else {
                    nxt0
                };
                (match spec_md_link_of(text.subrange(m.1, m.2)) {
                    Some(l) => seq![l],
                    None => Seq::empty(),
                }) + spec_md_links_from(text, nxt)
            },
            None => spec_md_links_from(text, i + 1),
        }
    }
}

// ---------------------------------------------------------------------------
// Ordering and deduplication of extracted names.
// ---------------------------------------------------------------------------

/// Stable insertion of a byte string into an ordered list.
pub open spec fn spec_insert_seq(s: Seq<Seq<u8>>, c: Seq<u8>) -> Seq<Seq<u8>>
    decreases s.len(),
{
    if s.len() == 0 {
        seq![c]
    } else if spec_bytes_le(s.last(), c) {
        s.push(c)
    } else {
        spec_insert_seq(s.drop_last(), c).push(s.last())
    }
}

/// Stable sort of byte strings in lexicographic order.
pub open spec fn spec_sort_seqs(s: Seq<Seq<u8>>) -> Seq<Seq<u8>>
    decreases s.len(),
{
    if s.len() == 0 {
        Seq::empty()
    } else {
        spec_insert_seq(spec_sort_seqs(s.drop_last()), s.last())
    }
}

/// The tail of adjacent deduplication: a string equal to its
/// predecessor vanishes.
pub open spec fn spec_dedup_tail(s: Seq<Seq<u8>>, i: int, prev: Seq<u8>) -> Seq<Seq<u8>>
    decreases s.len() - i,
{
    if !(0 <= i < s.len()) {
        Seq::empty()
    } else if s[i] == prev {
        spec_dedup_tail(s, i + 1, prev)
    } else {
        seq![s[i]] + spec_dedup_tail(s, i + 1, s[i])
    }
}

/// Adjacent deduplication, keeping the first of each run.
pub open spec fn spec_dedup(s: Seq<Seq<u8>>) -> Seq<Seq<u8>> {
    if s.len() == 0 {
        Seq::empty()
    } else {
        seq![s[0]] + spec_dedup_tail(s, 1, s[0])
    }
}

proof fn lemma_insert_seq_at(s: Seq<Seq<u8>>, c: Seq<u8>, p: int)
    requires
        0 <= p <= s.len(),
        forall|k: int| p <= k < s.len() ==> !spec_bytes_le(#[trigger] s[k], c),
        p > 0 ==> spec_bytes_le(s[p - 1], c),
    ensures
        spec_insert_seq(s, c) == s.subrange(0, p).push(c) + s.subrange(p, s.len() as int),
    decreases s.len(),
{
    if s.len() == 0 {
        assert(spec_insert_seq(s, c) =~= s.subrange(0, p).push(c) + s.subrange(p, s.len() as int));
    } else if p == s.len() {
        assert(s.subrange(0, p) =~= s);
        assert(s.subrange(p, s.len() as int) =~= Seq::<Seq<u8>>::empty());
        assert(s.push(c) =~= s.subrange(0, p).push(c) + s.subrange(p, s.len() as int));
    } else {
        let t = s.drop_last();
        lemma_insert_seq_at(t, c, p);
        assert(t.subrange(0, p) =~= s.subrange(0, p));
        assert(spec_insert_seq(t, c).push(s.last()) =~= s.subrange(0, p).push(c) + s.subrange(
            p,
            s.len() as int,
        ));
    }
}

fn insert_seq_sorted(out: &mut Vec<Vec<u8>>, c: Vec<u8>)
    ensures
        crate::paths::seq_views(final(out)@) == spec_insert_seq(
            crate::paths::seq_views(old(out)@),
            c@,
        ),
{
    let ghost views = crate::paths::seq_views(out@);
    let mut p: usize = out.len();
    while p > 0 && !bytes_le(&out[p - 1], &c)
        invariant
            p <= out@.len(),
            out@ == old(out)@,
            views == crate::paths::seq_views(out@),
            forall|k: int| p <= k < views.len() ==> !spec_bytes_le(#[trigger] views[k], c@),
        decreases p,
    {
        proof {
            assert(views[p - 1] == out@[p - 1]@);
        }
        p -= 1;
    }
    proof {
        if p > 0 {
            assert(views[p - 1] == out@[p - 1]@);
        }
        lemma_insert_seq_at(views, c@, p as int);
    }
    out.insert(p, c);
    proof {
        assert(crate::paths::seq_views(out@) =~= views.subrange(0, p as int).push(c@)
            + views.subrange(p as int, views.len() as int));
    }
}

/// Sorts extracted names lexicographically, as note path strings sort.
#[verifier::loop_isolation(false)]
#[verifier::rlimit(60)]
pub fn sort_seqs(items: Vec<Vec<u8>>) -> (r: Vec<Vec<u8>>)
    ensures
        crate::paths::seq_views(r@) == spec_sort_seqs(crate::paths::seq_views(items@)),
{
    let ghost all = crate::paths::seq_views(items@);
    let mut rest = items;
    let total = rest.len();
    let mut out: Vec<Vec<u8>> = Vec::new();
    proof {
        assert(crate::paths::seq_views(rest@) =~= all.skip(0));
        assert(all.subrange(0, 0) =~= Seq::<Seq<u8>>::empty());
        assert(crate::paths::seq_views(out@) =~= Seq::<Seq<u8>>::empty());
    }
    let mut i: usize = 0;
    while rest.len() > 0
        invariant
            total == all.len(),
            i + rest@.len() == all.len(),
            crate::paths::seq_views(rest@) == all.skip(i as int),
            crate::paths::seq_views(out@) == spec_sort_seqs(all.subrange(0, i as int)),
        decreases rest@.len(),
    {
        let ghost restv = crate::paths::seq_views(rest@);
        let c = rest.remove(0);
        proof {
            assert(c@ == restv[0]);
            assert(restv[0] == all[i as int]);
            assert(crate::paths::seq_views(rest@) =~= restv.drop_first());
            assert(restv.drop_first() =~= all.skip(i + 1));
        }
        insert_seq_sorted(&mut out, c);
        proof {
            let pre = all.subrange(0, i as int);
            let cur = all.subrange(0, i + 1);
            assert(cur.drop_last() =~= pre);
            assert(cur.last() == all[i as int]);
        }
        i += 1;
    }
    proof {
        assert(all.subrange(0, all.len() as int) =~= all);
    }
    out
}

/// Removes adjacent duplicates, keeping the first of each run.
#[verifier::loop_isolation(false)]
#[verifier::rlimit(60)]
pub fn dedup_seqs(items: Vec<Vec<u8>>) -> (r: Vec<Vec<u8>>)
    ensures
        crate::paths::seq_views(r@) == spec_dedup(crate::paths::seq_views(items@)),
{
    let ghost all = crate::paths::seq_views(items@);
    let mut out: Vec<Vec<u8>> = Vec::new();
    if items.len() == 0 {
        proof {
            assert(crate::paths::seq_views(out@) =~= spec_dedup(all));
        }
        return out;
    }
    let mut rest = items;
    let first = rest.remove(0);
    let ghost firstv = first@;
    proof {
        assert(firstv == all[0]);
        assert(crate::paths::seq_views(rest@) =~= all.skip(1));
    }
    let mut prev = copy_range(&first, 0, first.len());
    proof {
        assert(prev@ =~= firstv);
    }
    out.push(first);
    proof {
        assert(crate::paths::seq_views(out@) =~= seq![all[0]]);
    }
    let mut i: usize = 1;
    let ghost total = all.len();
    while rest.len() > 0
        invariant
            1 <= i,
            i + rest@.len() == all.len(),
            crate::paths::seq_views(rest@) == all.skip(i as int),
            prev@ == all[i - 1] || (exists|k: int|
                0 <= k < i && prev@ == all[k] && #[trigger] all[k] == prev@),
            spec_dedup(all) == crate::paths::seq_views(out@) + spec_dedup_tail(
                all,
                i as int,
                prev@,
            ),
        decreases rest@.len(),
    {
        let ghost restv = crate::paths::seq_views(rest@);
        let c = rest.remove(0);
        proof {
            assert(c@ == restv[0]);
            assert(restv[0] == all[i as int]);
            assert(crate::paths::seq_views(rest@) =~= restv.drop_first());
            assert(restv.drop_first() =~= all.skip(i + 1));
        }
        if bytes_eq(&c, &prev) {
        } else {
            let ghost preo = crate::paths::seq_views(out@);
            prev = copy_range(&c, 0, c.len());
            proof {
                assert(prev@ =~= c@);
            }
            out.push(c);
            proof {
                assert(crate::paths::seq_views(out@) =~= preo.push(all[i as int]));
                assert(spec_dedup(all) =~= crate::paths::seq_views(out@) + spec_dedup_tail(
                    all,
                    i + 1,
                    prev@,
                ));
            }
        }
        i += 1;
    }
    out
}

// ---------------------------------------------------------------------------
// Per-note extraction.
// ---------------------------------------------------------------------------

/// Appends all elements of `src` to `dst`.
#[verifier::loop_isolation(false)]
fn append_vecs(dst: &mut Vec<Vec<u8>>, src: Vec<Vec<u8>>)
    ensures
        crate::paths::seq_views(final(dst)@) == crate::paths::seq_views(old(dst)@)
            + crate::paths::seq_views(src@),
{
    let ghost srcv = crate::paths::seq_views(src@);
    let ghost prev = crate::paths::seq_views(dst@);
    let mut rest = src;
    let total = rest.len();
    proof {
        assert(crate::paths::seq_views(rest@) =~= srcv.skip(0));
        assert(prev + srcv.take(0) =~= prev);
    }
    let mut i: usize = 0;
    while rest.len() > 0
        invariant
            total == srcv.len(),
            i + rest@.len() == srcv.len(),
            crate::paths::seq_views(rest@) == srcv.skip(i as int),
            crate::paths::seq_views(dst@) == prev + srcv.take(i as int),
        decreases rest@.len(),
    {
        let ghost restv = crate::paths::seq_views(rest@);
        let c = rest.remove(0);
        proof {
            assert(c@ == restv[0]);
            assert(restv[0] == srcv[i as int]);
            assert(crate::paths::seq_views(rest@) =~= restv.drop_first());
            assert(restv.drop_first() =~= srcv.skip(i + 1));
        }
        let ghost pre = crate::paths::seq_views(dst@);
        dst.push(c);
        proof {
            assert(crate::paths::seq_views(dst@) =~= pre.push(srcv[i as int]));
            assert(pre.push(srcv[i as int]) =~= prev + srcv.take(i + 1));
        }
        i += 1;
    }
    proof {
        assert(srcv.take(srcv.len() as int) =~= srcv);
    }
}

/// The lowercased tags of one line.
#[verifier::loop_isolation(false)]
fn line_tags(line: &Vec<u8>) -> (r: Vec<Vec<u8>>)
    ensures
        crate::paths::seq_views(r@) == spec_line_tags(line@),
{
    let mut out: Vec<Vec<u8>> = Vec::new();
    proof {
        assert(crate::paths::seq_views(out@) =~= Seq::<Seq<u8>>::empty());
    }
    let mut i: usize = 0;
    while i < line.len()
        invariant
            i <= line@.len(),
            spec_line_tags_from(line@, 0) == crate::paths::seq_views(out@)
                + spec_line_tags_from(line@, i as int),
        decreases line@.len() - i,
    {
        let ghost pre = crate::paths::seq_views(out@);
        match kind_at(InlineKind::Tag, line, i, None) {
            Some(m) => {
                let next = m.end;
                let sub = copy_range(line, m.start + 1, m.end);
                let t = lower_bytes(&sub);
                proof {
                    assert(spec_max(i + 1, m.m().end) == m.m().end);
                    assert(t@ =~= spec_lower_seq(line@.subrange(i + 1, m.m().end)));
                }
                out.push(t);
                proof {
                    assert(crate::paths::seq_views(out@) =~= pre.push(
                        spec_lower_seq(line@.subrange(i + 1, m.m().end)),
                    ));
                    assert(spec_line_tags_from(line@, 0) =~= crate::paths::seq_views(out@)
                        + spec_line_tags_from(line@, next as int));
                }
                i = next;
            },
            None => {
                i += 1;
            },
        }
    }
    out
}

fn wiki_link_of(inner: &Vec<u8>) -> (r: Option<Vec<u8>>)
    ensures
        match r {
            Some(v) => spec_wiki_link_of(inner@) == Some(v@),
            None => spec_wiki_link_of(inner@) is None,
        },
{
    let left = copy_range(inner, 0, find_byte(inner, 124, 0));
    let l2 = copy_range(&left, 0, find_byte(&left, 35, 0));
    let link = trim_bytes(&l2);
    if link.len() == 0 {
        None
    } else {
        Some(normalize_rel_path(&link))
    }
}

/// The wiki links of the whole text, in order of appearance.
#[verifier::loop_isolation(false)]
fn wiki_links(text: &Vec<u8>) -> (r: Vec<Vec<u8>>)
    ensures
        crate::paths::seq_views(r@) == spec_wiki_links_from(text@, 0),
{
    let mut out: Vec<Vec<u8>> = Vec::new();
    proof {
        assert(crate::paths::seq_views(out@) =~= Seq::<Seq<u8>>::empty());
    }
    let mut i: usize = 0;
    while i < text.len()
        invariant
            i <= text@.len(),
            spec_wiki_links_from(text@, 0) == crate::paths::seq_views(out@)
                + spec_wiki_links_from(text@, i as int),
        decreases text@.len() - i,
    {
        let ghost pre = crate::paths::seq_views(out@);
        match kind_at(InlineKind::Wiki, text, i, None) {
            Some(m) => {
                let next = m.end;
                let inner = copy_range(text, m.inner_start, m.inner_end);
                proof {
                    assert(spec_max(i + 1, m.m().end) == m.m().end);
                    assert(inner@ =~= text@.subrange(m.m().inner_start, m.m().inner_end));
                }
                match wiki_link_of(&inner) {
                    Some(l) => {
                        out.push(l);
                        proof {
                            assert(crate::paths::seq_views(out@) =~= pre.push(
                                spec_wiki_link_of(
                                    text@.subrange(m.m().inner_start, m.m().inner_end),
                                ).unwrap(),
                            ));
                            assert(spec_wiki_links_from(text@, 0) =~= crate::paths::seq_views(out@)
                                + spec_wiki_links_from(text@, next as int));
                        }
                    },
                    None => {
                        proof {
                            assert(spec_wiki_links_from(text@, 0) =~= crate::paths::seq_views(out@)
                                + spec_wiki_links_from(text@, next as int));
                        }
                    },
                }
                i = next;
            },
            None => {
                i += 1;
            },
        }
    }
    out
}

/// The markdown link and image targets of the whole text, in order.
#[verifier::loop_isolation(false)]
fn md_links(text: &Vec<u8>) -> (r: Vec<Vec<u8>>)
    ensures
        crate::paths::seq_views(r@) == spec_md_links_from(text@, 0),
{
    let mut out: Vec<Vec<u8>> = Vec::new();
    proof {
        assert(crate::paths::seq_views(out@) =~= Seq::<Seq<u8>>::empty());
    }
    let mut i: usize = 0;
    while i < text.len()
        invariant
            i <= text@.len(),
            spec_md_links_from(text@, 0) == crate::paths::seq_views(out@) + spec_md_links_from(
                text@,
                i as int,
            ),
        decreases text@.len() - i,
    {
        let ghost pre = crate::paths::seq_views(out@);
        match mdany_at(text, i) {
            Some((e, ts, te)) => {
                let raw = copy_range(text, ts, te);
                proof {
                    assert(spec_max(i + 1, e as int) == e as int);
                    assert(raw@ =~= text@.subrange(ts as int, te as int));
                }
                match md_link_of(&raw) {
                    Some(l) => {
                        out.push(l);
                        proof {
                            assert(crate::paths::seq_views(out@) =~= pre.push(
                                spec_md_link_of(text@.subrange(ts as int, te as int)).unwrap(),
                            ));
                            assert(spec_md_links_from(text@, 0) =~= crate::paths::seq_views(out@)
                                + spec_md_links_from(text@, e as int));
                        }
                    },
                    None => {
                        proof {
                            assert(spec_md_links_from(text@, 0) =~= crate::paths::seq_views(out@)
                                + spec_md_links_from(text@, e as int));
                        }
                    },
                }
                i = e;
            },
            None => {
                i += 1;
            },
        }
    }
    out
}

/// What one note contributes to the index: its headings with levels and
/// line numbers, its lowercased tags, and its link targets, tags and
/// links sorted and deduplicated.
pub open spec fn spec_extract_file_cache(text: Seq<u8>) -> SpecFileCache {
    SpecFileCache {
        headings: spec_headings_from(text, 0, 1),
        tags: spec_dedup(spec_sort_seqs(spec_tags_from(text, 0))),
        links: spec_dedup(
            spec_sort_seqs(spec_wiki_links_from(text, 0) + spec_md_links_from(text, 0)),
        ),
    }
}

/// Extracts a note's headings, tags and links from its text alone.
#[verifier::loop_isolation(false)]
#[verifier::rlimit(60)]
pub fn extract_file_cache(text: &Vec<u8>) -> (r: FileCache)
    ensures
        r.v() == spec_extract_file_cache(text@),
{
    let n = text.len();
    let mut headings: Vec<HeadingCache> = Vec::new();
    let mut tags: Vec<Vec<u8>> = Vec::new();
    proof {
        assert(headings@.map_values(|h: HeadingCache| h.v()) =~= Seq::<SpecHeading>::empty());
        assert(crate::paths::seq_views(tags@) =~= Seq::<Seq<u8>>::empty());
    }
    let mut i: usize = 0;
    let mut count: usize = 0;
    while i < n
        invariant
            i <= n,
            n == text@.len(),
            count <= i,
            spec_headings_from(text@, 0, 1) == headings@.map_values(|h: HeadingCache| h.v())
                + spec_headings_from(text@, i as int, count + 1),
            spec_tags_from(text@, 0) == crate::paths::seq_views(tags@) + spec_tags_from(
                text@,
                i as int,
            ),
        decreases n - i,
    {
        let e = line_end(text, i);
        let e2 = if e > i && text[e - 1] == 13 {
            e - 1
        } else {
            e
        };
        let line = copy_range(text, i, e2);
        proof {
            assert(line@ =~= spec_note_line(text@, i as int));
        }
        let ghost preh = headings@.map_values(|h: HeadingCache| h.v());
        match heading_parse(&line) {
            Some((lvl, t)) => {
                headings.push(HeadingCache { level: lvl, text: t, line: count + 1 });
                proof {
                    assert(headings@.map_values(|h: HeadingCache| h.v()) =~= preh.push(
                        headings@.last().v(),
                    ));
                }
            },
            None => {},
        }
        let lt = line_tags(&line);
        append_vecs(&mut tags, lt);
        let next = if e < n {
            e + 1
        } else {
            n
        };
        proof {
            assert(spec_headings_from(text@, 0, 1) =~= headings@.map_values(
                |h: HeadingCache| h.v(),
            ) + spec_headings_from(text@, next as int, count + 2));
            assert(spec_tags_from(text@, 0) =~= crate::paths::seq_views(tags@) + spec_tags_from(
                text@,
                next as int,
            ));
        }
        i = next;
        count += 1;
    }
    let mut links = wiki_links(text);
    let ml = md_links(text);
    append_vecs(&mut links, ml);
    let tags_sorted = dedup_seqs(sort_seqs(tags));
    let links_sorted = dedup_seqs(sort_seqs(links));
    let r = FileCache { headings, tags: tags_sorted, links: links_sorted };
    proof {
        assert(r.v().headings =~= spec_extract_file_cache(text@).headings);
        assert(r.v().tags =~= spec_extract_file_cache(text@).tags);
        assert(r.v().links =~= spec_extract_file_cache(text@).links);
    }
    r
}

// ---------------------------------------------------------------------------
// Link resolution.
// ---------------------------------------------------------------------------

/// The stored path whose lowercased form equals `key`; the last such
/// path wins, as repeated inserts into the lookup table would.
pub open spec fn spec_lookup_ci(files: Seq<Seq<u8>>, key: Seq<u8>) -> Option<Seq<u8>>
    decreases files.len(),
{
    if files.len() == 0 {
        None
    } else if spec_lower_seq(files.last()) == key {
        Some(files.last())
    } else {
        spec_lookup_ci(files.drop_last(), key)
    }
}

#[verifier::loop_isolation(false)]
fn lookup_ci(files: &Vec<Vec<u8>>, key: &Vec<u8>) -> (r: Option<Vec<u8>>)
    ensures
        ({
            let fv = crate::paths::seq_views(files@);
            match r {
                Some(v) => spec_lookup_ci(fv, key@) == Some(v@),
                None => spec_lookup_ci(fv, key@) is None,
            }
        }),
{
    let ghost fv = crate::paths::seq_views(files@);
    proof {
        assert(fv.take(fv.len() as int) =~= fv);
    }
    let mut i: usize = files.len();
    while i > 0
        invariant
            i <= files@.len(),
            fv == crate::paths::seq_views(files@),
            spec_lookup_ci(fv, key@) == spec_lookup_ci(fv.take(i as int), key@),
        decreases i,
    {
        let low = lower_bytes(&files[i - 1]);
        proof {
            assert(fv.take(i as int).last() == fv[i - 1]);
            assert(fv.take(i as int).drop_last() =~= fv.take(i - 1));
        }
        if bytes_eq(&low, key) {
            let v = copy_range(&files[i - 1], 0, files[i - 1].len());
            proof {
                assert(v@ =~= fv[i - 1]);
            }
            return Some(v);
        }
        i -= 1;
    }
    proof {
        assert(fv.take(0).len() == 0);
    }
    None
}

/// The lowercased stem of a stored path, the key of the stem fallback.
pub open spec fn spec_stem_key(p: Seq<u8>) -> Seq<u8> {
    spec_lower_seq(spec_file_stem(p))
}

/// The stored paths sharing a stem key, in storage order.
pub open spec fn spec_stem_matches(files: Seq<Seq<u8>>, sk: Seq<u8>) -> Seq<Seq<u8>>
    decreases files.len(),
{
    if files.len() == 0 {
        Seq::empty()
    } else {
        (if spec_stem_key(files[0]) == sk {
            seq![files[0]]
        } else {
            Seq::empty()
        }) + spec_stem_matches(files.drop_first(), sk)
    }
}

#[verifier::loop_isolation(false)]
fn stem_matches(files: &Vec<Vec<u8>>, sk: &Vec<u8>) -> (r: Vec<Vec<u8>>)
    ensures
        crate::paths::seq_views(r@) == spec_stem_matches(crate::paths::seq_views(files@), sk@),
{
    let ghost fv = crate::paths::seq_views(files@);
    let mut out: Vec<Vec<u8>> = Vec::new();
    proof {
        assert(fv.skip(0) =~= fv);
        assert(crate::paths::seq_views(out@) =~= Seq::<Seq<u8>>::empty());
    }
    let mut i: usize = 0;
    while i < files.len()
        invariant
            i <= files@.len(),
            fv == crate::paths::seq_views(files@),
            spec_stem_matches(fv, sk@) == crate::paths::seq_views(out@) + spec_stem_matches(
                fv.skip(i as int),
                sk@,
            ),
        decreases files@.len() - i,
    {
        let ghost pre = crate::paths::seq_views(out@);
        proof {
            assert(fv.skip(i as int)[0] == fv[i as int]);
            assert(fv.skip(i as int).drop_first() =~= fv.skip(i + 1));
        }
        let stem = file_stem_of(&files[i]);
        let low = lower_bytes(&stem);
        if bytes_eq(&low, sk) {
            let v = copy_range(&files[i], 0, files[i].len());
            proof {
                assert(v@ =~= fv[i as int]);
            }
            out.push(v);
            proof {
                assert(crate::paths::seq_views(out@) =~= pre.push(fv[i as int]));
            }
        }
        i += 1;
    }
    proof {
        assert(fv.skip(files@.len() as int).len() == 0);
    }
    out
}

/// Where a raw link string points among the stored note paths: the
/// literal path with `.md` appended if missing, matched
/// case-insensitively; then, for links with a separator, the same
/// candidate joined to the source note's directory; finally a stem
/// lookup that resolves only when exactly one note shares the stem.
pub open spec fn spec_resolve_linkpath(
    link: Seq<u8>,
    source: Seq<u8>,
    files: Seq<Seq<u8>>,
) -> Option<Seq<u8>> {
    let raw = spec_normalize_rel_path(link);
    if raw.len() == 0 {
        None
    } else {
        let he = spec_ends_md(raw);
        let c1 = if he {
            raw
        } else {
            raw + ".md".spec_bytes()
        };
        match spec_lookup_ci(files, spec_lower_seq(c1)) {
            Some(f) => Some(f),
            None => {
                let dirres = if spec_find_byte(raw, 47, 0) < raw.len() {
                    let k = spec_rfind_byte(source, 47, source.len() as int);
                    let dir = if k >= 0 {
                        source.subrange(0, k)
                    } else {
                        Seq::empty()
                    };
                    if dir.len() > 0 {
                        let joined = spec_normalize_rel_path(dir + seq![47u8] + raw);
                        let c2 = if he {
                            joined
                        } else {
                            joined + ".md".spec_bytes()
                        };
                        spec_lookup_ci(files, spec_lower_seq(c2))
                    } else {
                        None
                    }
                } else {
                    None
                };
                match dirres {
                    Some(f) => Some(f),
                    None => {
                        let ms = spec_stem_matches(files, spec_stem_key(raw));
                        if ms.len() == 1 {
                            Some(ms[0])
                        } else {
                            None
                        }
                    },
                }
            },
        }
    }
}

/// Resolves one raw link against the stored note paths.
#[verifier::rlimit(60)]
pub fn resolve_linkpath(link: &Vec<u8>, source_path: &Vec<u8>, files: &Vec<Vec<u8>>) -> (r: Option<
    Vec<u8>,
>)
    ensures
        ({
            let fv = crate::paths::seq_views(files@);
            match r {
                Some(v) => spec_resolve_linkpath(link@, source_path@, fv) == Some(v@),
                None => spec_resolve_linkpath(link@, source_path@, fv) is None,
            }
        }),
{
    let raw = normalize_rel_path(link);
    if raw.len() == 0 {
        return None;
    }
    let he = crate::paths::ends_md(&raw);
    let mut c1 = copy_range(&raw, 0, raw.len());
    proof {
        assert(c1@ =~= raw@);
    }
    if !he {
        push_str_bytes(&mut c1, ".md");
    }
    let k1 = lower_bytes(&c1);
    match lookup_ci(files, &k1) {
        Some(f) => {
            return Some(f);
        },
        None => {},
    }
    if find_byte(&raw, 47, 0) < raw.len() {
        match rfind_byte(source_path, 47) {
            Some(k) => {
                if k > 0 {
                    let dir = copy_range(source_path, 0, k);
                    let mut joined0: Vec<u8> = Vec::new();
                    push_bytes(&mut joined0, &dir);
                    joined0.push(47);
                    push_bytes(&mut joined0, &raw);
                    proof {
                        assert(joined0@ =~= source_path@.subrange(0, k as int) + seq![47u8]
                            + raw@);
                    }
                    let joined = normalize_rel_path(&joined0);
                    let mut c2 = joined;
                    if !he {
                        push_str_bytes(&mut c2, ".md");
                    }
                    let k2 = lower_bytes(&c2);
                    match lookup_ci(files, &k2) {
                        Some(f) => {
                            return Some(f);
                        },
                        None => {},
                    }
                }
            },
            None => {},
        }
    }
    let stem = file_stem_of(&raw);
    let sk = lower_bytes(&stem);
    let ms = stem_matches(files, &sk);
    if ms.len() == 1 {
        let ghost msv = crate::paths::seq_views(ms@);
        let v = copy_range(&ms[0], 0, ms[0].len());
        proof {
            assert(v@ =~= msv[0]);
        }
        return Some(v);
    }
    None
}

// ---------------------------------------------------------------------------
// The vault-wide index.
// ---------------------------------------------------------------------------

/// The whole vault index: per-note caches, resolved and unresolved link
/// counts per source, backlinks per target, and note lists per tag.
pub struct MetadataCacheState {
    pub file_cache: Vec<(Vec<u8>, FileCache)>,
    pub resolved_links: Vec<(Vec<u8>, Vec<(Vec<u8>, usize)>)>,
    pub unresolved_links: Vec<(Vec<u8>, Vec<(Vec<u8>, usize)>)>,
    pub backlinks: Vec<(Vec<u8>, Vec<Vec<u8>>)>,
    pub tags_index: Vec<(Vec<u8>, Vec<Vec<u8>>)>,
}

/// The mathematical value of the index.
pub ghost struct SpecMetadata {
    pub file_cache: Seq<(Seq<u8>, SpecFileCache)>,
    pub resolved_links: Seq<(Seq<u8>, Seq<(Seq<u8>, int)>)>,
    pub unresolved_links: Seq<(Seq<u8>, Seq<(Seq<u8>, int)>)>,
    pub backlinks: Seq<(Seq<u8>, Seq<Seq<u8>>)>,
    pub tags_index: Seq<(Seq<u8>, Seq<Seq<u8>>)>,
}

/// The values of an inner counter list.
pub open spec fn icounts(v: Seq<(Vec<u8>, usize)>) -> Seq<(Seq<u8>, int)> {
    v.map_values(|p: (Vec<u8>, usize)| (p.0@, p.1 as int))
}

/// The values of a counter map.
pub open spec fn counts_view(v: Seq<(Vec<u8>, Vec<(Vec<u8>, usize)>)>) -> Seq<
    (Seq<u8>, Seq<(Seq<u8>, int)>),
> {
    v.map_values(|e: (Vec<u8>, Vec<(Vec<u8>, usize)>)| (e.0@, icounts(e.1@)))
}

/// The values of a list map.
pub open spec fn lists_view(v: Seq<(Vec<u8>, Vec<Vec<u8>>)>) -> Seq<(Seq<u8>, Seq<Seq<u8>>)> {
    v.map_values(|e: (Vec<u8>, Vec<Vec<u8>>)| (e.0@, crate::paths::seq_views(e.1@)))
}

/// The values of the per-note cache map.
pub open spec fn fc_view(v: Seq<(Vec<u8>, FileCache)>) -> Seq<(Seq<u8>, SpecFileCache)> {
    v.map_values(|e: (Vec<u8>, FileCache)| (e.0@, e.1.v()))
}

/// The values of the note text map.
pub open spec fn notes_view(v: Seq<(Vec<u8>, Vec<u8>)>) -> Seq<(Seq<u8>, Seq<u8>)> {
    v.map_values(|p: (Vec<u8>, Vec<u8>)| (p.0@, p.1@))
}

impl MetadataCacheState {
    /// The index as a mathematical value.
    pub open spec fn v(self) -> SpecMetadata {
        SpecMetadata {
            file_cache: fc_view(self.file_cache@),
            resolved_links: counts_view(self.resolved_links@),
            unresolved_links: counts_view(self.unresolved_links@),
            backlinks: lists_view(self.backlinks@),
            tags_index: lists_view(self.tags_index@),
        }
    }
}

/// One more occurrence counted under `key`: the first entry with that
/// key is bumped, saturating at the counter maximum; a missing key
/// starts at one.
pub open spec fn spec_bump_inner(c: Seq<(Seq<u8>, int)>, key: Seq<u8>) -> Seq<(Seq<u8>, int)>
    decreases c.len(),
{
    if c.len() == 0 {
        seq![(key, 1int)]
    } else if c[0].0 == key {
        seq![(c[0].0, if c[0].1 == usize::MAX { c[0].1 } else { c[0].1 + 1 })] + c.drop_first()
    } else {
        seq![c[0]] + spec_bump_inner(c.drop_first(), key)
    }
}

/// One more `key` occurrence under source `src` in a counter map.
pub open spec fn spec_bump_outer(
    m: Seq<(Seq<u8>, Seq<(Seq<u8>, int)>)>,
    src: Seq<u8>,
    key: Seq<u8>,
) -> Seq<(Seq<u8>, Seq<(Seq<u8>, int)>)>
    decreases m.len(),
{
    if m.len() == 0 {
        seq![(src, seq![(key, 1int)])]
    } else if m[0].0 == src {
        seq![(m[0].0, spec_bump_inner(m[0].1, key))] + m.drop_first()
    } else {
        seq![m[0]] + spec_bump_outer(m.drop_first(), src, key)
    }
}

/// `v` appended to the list stored under `key`; a missing key starts a
/// fresh list.
pub open spec fn spec_append_list(
    m: Seq<(Seq<u8>, Seq<Seq<u8>>)>,
    key: Seq<u8>,
    v: Seq<u8>,
) -> Seq<(Seq<u8>, Seq<Seq<u8>>)>
    decreases m.len(),
{
    if m.len() == 0 {
        seq![(key, seq![v])]
    } else if m[0].0 == key {
        seq![(m[0].0, m[0].1.push(v))] + m.drop_first()
    } else {
        seq![m[0]] + spec_append_list(m.drop_first(), key, v)
    }
}

/// The first cache stored under `key`.
pub open spec fn spec_fc_lookup(m: Seq<(Seq<u8>, SpecFileCache)>, key: Seq<u8>) -> Option<
    SpecFileCache,
>
    decreases m.len(),
{
    if m.len() == 0 {
        None
    } else if m[0].0 == key {
        Some(m[0].1)
    } else {
        spec_fc_lookup(m.drop_first(), key)
    }
}

#[verifier::loop_isolation(false)]
fn bump_inner(c: Vec<(Vec<u8>, usize)>, key: &Vec<u8>) -> (r: Vec<(Vec<u8>, usize)>)
    ensures
        icounts(r@) == spec_bump_inner(icounts(c@), key@),
{
    let ghost orig = icounts(c@);
    let mut rest = c;
    let total = rest.len();
    let mut out: Vec<(Vec<u8>, usize)> = Vec::new();
    let mut found = false;
    proof {
        assert(icounts(rest@) =~= orig.skip(0));
        assert(icounts(out@) =~= Seq::<(Seq<u8>, int)>::empty());
    }
    let mut i: usize = 0;
    while rest.len() > 0
        invariant
            total == orig.len(),
            i + rest@.len() == orig.len(),
            icounts(rest@) == orig.skip(i as int),
            !found ==> spec_bump_inner(orig, key@) == icounts(out@) + spec_bump_inner(
                icounts(rest@),
                key@,
            ),
            found ==> spec_bump_inner(orig, key@) == icounts(out@) + icounts(rest@),
        decreases rest@.len(),
    {
        let ghost restv = icounts(rest@);
        let e = rest.remove(0);
        proof {
            assert((e.0@, e.1 as int) == restv[0]);
            assert(icounts(rest@) =~= restv.drop_first());
            assert(restv.drop_first() =~= orig.skip(i + 1));
        }
        let ghost pre = icounts(out@);
        if !found && bytes_eq(&e.0, key) {
            let bumped: usize = if e.1 == usize::MAX {
                e.1
            } else {
                e.1 + 1
            };
            out.push((e.0, bumped));
            found = true;
            proof {
                assert(icounts(out@) =~= pre.push((key@, bumped as int)));
                assert(spec_bump_inner(orig, key@) =~= icounts(out@) + icounts(rest@));
            }
        } else {
            out.push(e);
            proof {
                assert(icounts(out@) =~= pre.push(restv[0]));
                if found {
                    assert(spec_bump_inner(orig, key@) =~= icounts(out@) + icounts(rest@));
                } else {
                    assert(spec_bump_inner(orig, key@) =~= icounts(out@) + spec_bump_inner(
                        icounts(rest@),
                        key@,
                    ));
                }
            }
        }
        i += 1;
    }
    if !found {
        let k = copy_range(key, 0, key.len());
        let ghost pre = icounts(out@);
        proof {
            assert(k@ =~= key@);
            assert(icounts(rest@).len() == 0);
        }
        out.push((k, 1));
        proof {
            assert(icounts(out@) =~= pre.push((key@, 1int)));
            assert(spec_bump_inner(orig, key@) =~= icounts(out@));
        }
    }
    out
}

#[verifier::loop_isolation(false)]
fn bump_outer(
    m: Vec<(Vec<u8>, Vec<(Vec<u8>, usize)>)>,
    src: &Vec<u8>,
    key: &Vec<u8>,
) -> (r: Vec<(Vec<u8>, Vec<(Vec<u8>, usize)>)>)
    ensures
        counts_view(r@) == spec_bump_outer(counts_view(m@), src@, key@),
{
    let ghost orig = counts_view(m@);
    let mut rest = m;
    let total = rest.len();
    let mut out: Vec<(Vec<u8>, Vec<(Vec<u8>, usize)>)> = Vec::new();
    let mut found = false;
    proof {
        assert(counts_view(rest@) =~= orig.skip(0));
        assert(counts_view(out@) =~= Seq::<(Seq<u8>, Seq<(Seq<u8>, int)>)>::empty());
    }
    let mut i: usize = 0;
    while rest.len() > 0
        invariant
            total == orig.len(),
            i + rest@.len() == orig.len(),
            counts_view(rest@) == orig.skip(i as int),
            !found ==> spec_bump_outer(orig, src@, key@) == counts_view(out@) + spec_bump_outer(
                counts_view(rest@),
                src@,
                key@,
            ),
            found ==> spec_bump_outer(orig, src@, key@) == counts_view(out@) + counts_view(rest@),
        decreases rest@.len(),
    {
        let ghost restv = counts_view(rest@);
        let e = rest.remove(0);
        proof {
            assert((e.0@, icounts(e.1@)) == restv[0]);
            assert(counts_view(rest@) =~= restv.drop_first());
            assert(restv.drop_first() =~= orig.skip(i + 1));
        }
        let ghost pre = counts_view(out@);
        if !found && bytes_eq(&e.0, src) {
            let inner = bump_inner(e.1, key);
            out.push((e.0, inner));
            found = true;
            proof {
                assert(counts_view(out@) =~= pre.push(
                    (src@, spec_bump_inner(restv[0].1, key@)),
                ));
                assert(spec_bump_outer(orig, src@, key@) =~= counts_view(out@) + counts_view(
                    rest@,
                ));
            }
        } else {
            out.push(e);
            proof {
                assert(counts_view(out@) =~= pre.push(restv[0]));
                if found {
                    assert(spec_bump_outer(orig, src@, key@) =~= counts_view(out@) + counts_view(
                        rest@,
                    ));
                } else {
                    assert(spec_bump_outer(orig, src@, key@) =~= counts_view(out@)
                        + spec_bump_outer(counts_view(rest@), src@, key@));
                }
            }
        }
        i += 1;
    }
    if !found {
        let s = copy_range(src, 0, src.len());
        let k = copy_range(key, 0, key.len());
        let ghost pre = counts_view(out@);
        proof {
            assert(s@ =~= src@);
            assert(k@ =~= key@);
            assert(counts_view(rest@).len() == 0);
        }
        let mut inner: Vec<(Vec<u8>, usize)> = Vec::new();
        inner.push((k, 1));
        proof {
            assert(icounts(inner@) =~= seq![(key@, 1int)]);
        }
        out.push((s, inner));
        proof {
            assert(counts_view(out@) =~= pre.push((src@, seq![(key@, 1int)])));
            assert(spec_bump_outer(orig, src@, key@) =~= counts_view(out@));
        }
    }
    out
}

#[verifier::loop_isolation(false)]
fn append_list(m: Vec<(Vec<u8>, Vec<Vec<u8>>)>, key: &Vec<u8>, v: Vec<u8>) -> (r: Vec<
    (Vec<u8>, Vec<Vec<u8>>),
>)
    ensures
        lists_view(r@) == spec_append_list(lists_view(m@), key@, v@),
{
    let ghost orig = lists_view(m@);
    let ghost vv = v@;
    let mut rest = m;
    let total = rest.len();
    let mut out: Vec<(Vec<u8>, Vec<Vec<u8>>)> = Vec::new();
    let mut value = Some(v);
    proof {
        assert(lists_view(rest@) =~= orig.skip(0));
        assert(lists_view(out@) =~= Seq::<(Seq<u8>, Seq<Seq<u8>>)>::empty());
    }
    let mut i: usize = 0;
    while rest.len() > 0
        invariant
            total == orig.len(),
            i + rest@.len() == orig.len(),
            lists_view(rest@) == orig.skip(i as int),
            match value {
                Some(val) => val@ == vv && spec_append_list(orig, key@, vv) == lists_view(out@)
                    + spec_append_list(lists_view(rest@), key@, vv),
                None => spec_append_list(orig, key@, vv) == lists_view(out@) + lists_view(rest@),
            },
        decreases rest@.len(),
    {
        let ghost restv = lists_view(rest@);
        let e = rest.remove(0);
        proof {
            assert((e.0@, crate::paths::seq_views(e.1@)) == restv[0]);
            assert(lists_view(rest@) =~= restv.drop_first());
            assert(restv.drop_first() =~= orig.skip(i + 1));
        }
        let ghost pre = lists_view(out@);
        let matched = match &value {
            Some(_) => bytes_eq(&e.0, key),
            None => false,
        };
        if matched {
            let val = value.take().unwrap();
            let ghost preinner = crate::paths::seq_views(e.1@);
            let mut inner = e.1;
            inner.push(val);
            proof {
                assert(crate::paths::seq_views(inner@) =~= preinner.push(vv));
            }
            out.push((e.0, inner));
            proof {
                assert(lists_view(out@) =~= pre.push((key@, restv[0].1.push(vv))));
                assert(spec_append_list(orig, key@, vv) =~= lists_view(out@) + lists_view(rest@));
            }
        } else {
            out.push(e);
            proof {
                assert(lists_view(out@) =~= pre.push(restv[0]));
                match value {
                    Some(_) => {
                        assert(spec_append_list(orig, key@, vv) =~= lists_view(out@)
                            + spec_append_list(lists_view(rest@), key@, vv));
                    },
                    None => {
                        assert(spec_append_list(orig, key@, vv) =~= lists_view(out@) + lists_view(
                            rest@,
                        ));
                    },
                }
            }
        }
        i += 1;
    }
    match value {
        Some(val) => {
            let k = copy_range(key, 0, key.len());
            let ghost pre = lists_view(out@);
            proof {
                assert(k@ =~= key@);
                assert(lists_view(rest@).len() == 0);
            }
            let mut inner: Vec<Vec<u8>> = Vec::new();
            inner.push(val);
            proof {
                assert(crate::paths::seq_views(inner@) =~= seq![vv]);
            }
            out.push((k, inner));
            proof {
                assert(lists_view(out@) =~= pre.push((key@, seq![vv])));
                assert(spec_append_list(orig, key@, vv) =~= lists_view(out@));
            }
        },
        None => {},
    }
    out
}

/// The links of the first cache stored under `key`, or none.
#[verifier::loop_isolation(false)]
fn fc_links(m: &Vec<(Vec<u8>, FileCache)>, key: &Vec<u8>) -> (r: Vec<Vec<u8>>)
    ensures
        crate::paths::seq_views(r@) == (match spec_fc_lookup(fc_view(m@), key@) {
            Some(c) => c.links,
            None => Seq::empty(),
        }),
{
    let ghost mv = fc_view(m@);
    proof {
        assert(mv.skip(0) =~= mv);
    }
    let mut i: usize = 0;
    while i < m.len()
        invariant
            i <= m@.len(),
            mv == fc_view(m@),
            spec_fc_lookup(mv, key@) == spec_fc_lookup(mv.skip(i as int), key@),
        decreases m@.len() - i,
    {
        proof {
            assert(mv.skip(i as int)[0] == mv[i as int]);
            assert(mv.skip(i as int).drop_first() =~= mv.skip(i + 1));
        }
        if bytes_eq(&m[i].0, key) {
            let mut out: Vec<Vec<u8>> = Vec::new();
            let links = &m[i].1.links;
            let mut j: usize = 0;
            while j < links.len()
                invariant
                    j <= links@.len(),
                    links == &m@[i as int].1.links,
                    i < m@.len(),
                    crate::paths::seq_views(out@) == crate::paths::seq_views(links@).take(j as int),
                decreases links@.len() - j,
            {
                let ghost pre = crate::paths::seq_views(out@);
                let l = copy_range(&links[j], 0, links[j].len());
                proof {
                    assert(l@ =~= links@[j as int]@);
                }
                out.push(l);
                proof {
                    assert(crate::paths::seq_views(out@) =~= crate::paths::seq_views(links@).take(
                        j + 1,
                    ));
                }
                j += 1;
            }
            proof {
                assert(crate::paths::seq_views(links@).take(links@.len() as int)
                    =~= crate::paths::seq_views(links@));
                assert(mv[i as int].1.links == crate::paths::seq_views(links@));
            }
            return out;
        }
        i += 1;
    }
    proof {
        assert(mv.skip(i as int).len() == 0);
    }
    Vec::new()
}

// ---------------------------------------------------------------------------
// The three passes of the build.
// ---------------------------------------------------------------------------

/// Every tag of a note added to the tag index under the note's path.
pub open spec fn spec_add_tags(
    ti: Seq<(Seq<u8>, Seq<Seq<u8>>)>,
    tags: Seq<Seq<u8>>,
    j: int,
    path: Seq<u8>,
) -> Seq<(Seq<u8>, Seq<Seq<u8>>)>
    decreases tags.len() - j,
{
    if !(0 <= j < tags.len()) {
        ti
    } else {
        spec_add_tags(spec_append_list(ti, tags[j], path), tags, j + 1, path)
    }
}

/// The first pass: every note's cache extracted in path order, and its
/// tags recorded in the tag index.
pub open spec fn spec_pass1(
    notes: Seq<(Seq<u8>, Seq<u8>)>,
    files: Seq<Seq<u8>>,
    i: int,
    fc: Seq<(Seq<u8>, SpecFileCache)>,
    ti: Seq<(Seq<u8>, Seq<Seq<u8>>)>,
) -> (Seq<(Seq<u8>, SpecFileCache)>, Seq<(Seq<u8>, Seq<Seq<u8>>)>)
    decreases files.len() - i,
{
    if !(0 <= i < files.len()) {
        (fc, ti)
    } else {
        let text = match spec_cache_lookup(notes, files[i]) {
            Some(t) => t,
            None => Seq::empty(),
        };
        let cache = spec_extract_file_cache(text);
        spec_pass1(
            notes,
            files,
            i + 1,
            fc.push((files[i], cache)),
            spec_add_tags(ti, cache.tags, 0, files[i]),
        )
    }
}

/// One note's links folded into the resolved counts, unresolved counts
/// and backlinks.
pub open spec fn spec_add_links(
    links: Seq<Seq<u8>>,
    j: int,
    source: Seq<u8>,
    files: Seq<Seq<u8>>,
    res: Seq<(Seq<u8>, Seq<(Seq<u8>, int)>)>,
    unres: Seq<(Seq<u8>, Seq<(Seq<u8>, int)>)>,
    back: Seq<(Seq<u8>, Seq<Seq<u8>>)>,
) -> (
    Seq<(Seq<u8>, Seq<(Seq<u8>, int)>)>,
    Seq<(Seq<u8>, Seq<(Seq<u8>, int)>)>,
    Seq<(Seq<u8>, Seq<Seq<u8>>)>,
)
    decreases links.len() - j,
{
    if !(0 <= j < links.len()) {
        (res, unres, back)
    } else {
        match spec_resolve_linkpath(links[j], source, files) {
            Some(t) => spec_add_links(
                links,
                j + 1,
                source,
                files,
                spec_bump_outer(res, source, t),
                unres,
                spec_append_list(back, t, source),
            ),
            None => spec_add_links(
                links,
                j + 1,
                source,
                files,
                res,
                spec_bump_outer(unres, source, links[j]),
                back,
            ),
        }
    }
}

/// The second pass: every note's links resolved against the stored
/// paths.
pub open spec fn spec_pass2(
    files: Seq<Seq<u8>>,
    i: int,
    fc: Seq<(Seq<u8>, SpecFileCache)>,
    res: Seq<(Seq<u8>, Seq<(Seq<u8>, int)>)>,
    unres: Seq<(Seq<u8>, Seq<(Seq<u8>, int)>)>,
    back: Seq<(Seq<u8>, Seq<Seq<u8>>)>,
) -> (
    Seq<(Seq<u8>, Seq<(Seq<u8>, int)>)>,
    Seq<(Seq<u8>, Seq<(Seq<u8>, int)>)>,
    Seq<(Seq<u8>, Seq<Seq<u8>>)>,
)
    decreases files.len() - i,
{
    if !(0 <= i < files.len()) {
        (res, unres, back)
    } else {
        let links = match spec_fc_lookup(fc, files[i]) {
            Some(c) => c.links,
            None => Seq::empty(),
        };
        let t3 = spec_add_links(links, 0, files[i], files, res, unres, back);
        spec_pass2(files, i + 1, fc, t3.0, t3.1, t3.2)
    }
}

/// The third pass: every backlink and tag list sorted and
/// deduplicated.
pub open spec fn spec_finalize(m: Seq<(Seq<u8>, Seq<Seq<u8>>)>) -> Seq<(Seq<u8>, Seq<Seq<u8>>)> {
    m.map_values(|e: (Seq<u8>, Seq<Seq<u8>>)| (e.0, spec_dedup(spec_sort_seqs(e.1))))
}

/// The whole index as a function of the note texts and the stored note
/// paths.
pub open spec fn spec_build_metadata(
    notes: Seq<(Seq<u8>, Seq<u8>)>,
    files: Seq<Seq<u8>>,
) -> SpecMetadata {
    let p1 = spec_pass1(notes, files, 0, Seq::empty(), Seq::empty());
    let p2 = spec_pass2(files, 0, p1.0, Seq::empty(), Seq::empty(), Seq::empty());
    SpecMetadata {
        file_cache: p1.0,
        resolved_links: p2.0,
        unresolved_links: p2.1,
        backlinks: spec_finalize(p2.2),
        tags_index: spec_finalize(p1.1),
    }
}

#[verifier::loop_isolation(false)]
#[verifier::rlimit(60)]
fn finalize_lists(m: Vec<(Vec<u8>, Vec<Vec<u8>>)>) -> (r: Vec<(Vec<u8>, Vec<Vec<u8>>)>)
    ensures
        lists_view(r@) == spec_finalize(lists_view(m@)),
{
    let ghost orig = lists_view(m@);
    let mut rest = m;
    let total = rest.len();
    let mut out: Vec<(Vec<u8>, Vec<Vec<u8>>)> = Vec::new();
    proof {
        assert(lists_view(rest@) =~= orig.skip(0));
        assert(lists_view(out@) =~= spec_finalize(orig).take(0));
    }
    let mut i: usize = 0;
    while rest.len() > 0
        invariant
            total == orig.len(),
            i + rest@.len() == orig.len(),
            lists_view(rest@) == orig.skip(i as int),
            lists_view(out@) == spec_finalize(orig).take(i as int),
        decreases rest@.len(),
    {
        let ghost restv = lists_view(rest@);
        let e = rest.remove(0);
        proof {
            assert((e.0@, crate::paths::seq_views(e.1@)) == restv[0]);
            assert(restv[0] == orig[i as int]);
            assert(lists_view(rest@) =~= restv.drop_first());
            assert(restv.drop_first() =~= orig.skip(i + 1));
        }
        let ghost pre = lists_view(out@);
        let cleaned = dedup_seqs(sort_seqs(e.1));
        out.push((e.0, cleaned));
        proof {
            assert(lists_view(out@) =~= pre.push(
                (orig[i as int].0, spec_dedup(spec_sort_seqs(orig[i as int].1))),
            ));
            assert(spec_finalize(orig)[i as int] == (
                orig[i as int].0,
                spec_dedup(spec_sort_seqs(orig[i as int].1)),
            ));
            assert(lists_view(out@) =~= spec_finalize(orig).take(i + 1));
        }
        i += 1;
    }
    proof {
        assert(spec_finalize(orig).take(orig.len() as int) =~= spec_finalize(orig));
    }
    out
}

/// Builds the vault index in full: extracts every note's cache, records
/// tags, resolves every link against the stored paths, and sorts and
/// deduplicates the backlink and tag lists.
#[verifier::loop_isolation(false)]
#[verifier::rlimit(100)]
pub fn build_metadata_cache(notes: &Vec<(Vec<u8>, Vec<u8>)>, files: &Vec<Vec<u8>>) -> (r:
    MetadataCacheState)
    ensures
        r.v() == spec_build_metadata(notes_view(notes@), crate::paths::seq_views(files@)),
{
    let ghost nv = notes_view(notes@);
    let ghost fv = crate::paths::seq_views(files@);
    let n = files.len();
    let mut fc: Vec<(Vec<u8>, FileCache)> = Vec::new();
    let mut ti: Vec<(Vec<u8>, Vec<Vec<u8>>)> = Vec::new();
    proof {
        assert(fc_view(fc@) =~= Seq::<(Seq<u8>, SpecFileCache)>::empty());
        assert(lists_view(ti@) =~= Seq::<(Seq<u8>, Seq<Seq<u8>>)>::empty());
    }
    let mut i: usize = 0;
    while i < n
        invariant
            i <= n,
            n == files@.len(),
            nv == notes_view(notes@),
            fv == crate::paths::seq_views(files@),
            spec_pass1(nv, fv, 0, Seq::empty(), Seq::empty()) == spec_pass1(
                nv,
                fv,
                i as int,
                fc_view(fc@),
                lists_view(ti@),
            ),
        decreases n - i,
    {
        let text = match crate::format::cache_lookup(notes, &files[i]) {
            Some(t) => t,
            None => Vec::new(),
        };
        proof {
            assert(fv[i as int] == files@[i as int]@);
        }
        let cache = extract_file_cache(&text);
        let ghost tagsv = crate::paths::seq_views(cache.tags@);
        let ghost ti0 = lists_view(ti@);
        let tags_len = cache.tags.len();
        let mut j: usize = 0;
        while j < tags_len
            invariant
                j <= tags_len,
                i < n,
                n == files@.len(),
                fv == crate::paths::seq_views(files@),
                tags_len == cache.tags@.len(),
                tagsv == crate::paths::seq_views(cache.tags@),
                spec_add_tags(ti0, tagsv, 0, fv[i as int]) == spec_add_tags(
                    lists_view(ti@),
                    tagsv,
                    j as int,
                    fv[i as int],
                ),
            decreases tags_len - j,
        {
            let tag = copy_range(&cache.tags[j], 0, cache.tags[j].len());
            let p = copy_range(&files[i], 0, files[i].len());
            proof {
                assert(tag@ =~= tagsv[j as int]);
                assert(p@ =~= fv[i as int]);
            }
            ti = append_list(ti, &tag, p);
            j += 1;
        }
        let path = copy_range(&files[i], 0, files[i].len());
        proof {
            assert(path@ =~= fv[i as int]);
        }
        let ghost prefc = fc_view(fc@);
        fc.push((path, cache));
        proof {
            assert(fc_view(fc@) =~= prefc.push((fv[i as int], fc@.last().1.v())));
        }
        i += 1;
    }
    let ghost p1 = spec_pass1(nv, fv, 0, Seq::empty(), Seq::empty());
    proof {
        assert(p1.0 == fc_view(fc@) && p1.1 == lists_view(ti@));
    }
    let mut res: Vec<(Vec<u8>, Vec<(Vec<u8>, usize)>)> = Vec::new();
    let mut unres: Vec<(Vec<u8>, Vec<(Vec<u8>, usize)>)> = Vec::new();
    let mut back: Vec<(Vec<u8>, Vec<Vec<u8>>)> = Vec::new();
    proof {
        assert(counts_view(res@) =~= Seq::<(Seq<u8>, Seq<(Seq<u8>, int)>)>::empty());
        assert(counts_view(unres@) =~= Seq::<(Seq<u8>, Seq<(Seq<u8>, int)>)>::empty());
        assert(lists_view(back@) =~= Seq::<(Seq<u8>, Seq<Seq<u8>>)>::empty());
    }
    let mut i: usize = 0;
    while i < n
        invariant
            i <= n,
            n == files@.len(),
            fv == crate::paths::seq_views(files@),
            p1.0 == fc_view(fc@),
            spec_pass2(fv, 0, p1.0, Seq::empty(), Seq::empty(), Seq::empty()) == spec_pass2(
                fv,
                i as int,
                p1.0,
                counts_view(res@),
                counts_view(unres@),
                lists_view(back@),
            ),
        decreases n - i,
    {
        let links = fc_links(&fc, &files[i]);
        let ghost linksv = crate::paths::seq_views(links@);
        let ghost res0 = counts_view(res@);
        let ghost unres0 = counts_view(unres@);
        let ghost back0 = lists_view(back@);
        proof {
            assert(fv[i as int] == files@[i as int]@);
        }
        let links_len = links.len();
        let mut j: usize = 0;
        while j < links_len
            invariant
                j <= links_len,
                i < n,
                n == files@.len(),
                fv == crate::paths::seq_views(files@),
                links_len == links@.len(),
                linksv == crate::paths::seq_views(links@),
                spec_add_links(linksv, 0, fv[i as int], fv, res0, unres0, back0)
                    == spec_add_links(
                    linksv,
                    j as int,
                    fv[i as int],
                    fv,
                    counts_view(res@),
                    counts_view(unres@),
                    lists_view(back@),
                ),
            decreases links_len - j,
        {
            proof {
                assert(links@[j as int]@ == linksv[j as int]);
            }
            match resolve_linkpath(&links[j], &files[i], files) {
                Some(t) => {
                    res = bump_outer(res, &files[i], &t);
                    let src = copy_range(&files[i], 0, files[i].len());
                    proof {
                        assert(src@ =~= fv[i as int]);
                    }
                    back = append_list(back, &t, src);
                },
                None => {
                    unres = bump_outer(unres, &files[i], &links[j]);
                },
            }
            j += 1;
        }
        i += 1;
    }
    let ghost p2 = spec_pass2(fv, 0, p1.0, Seq::empty(), Seq::empty(), Seq::empty());
    proof {
        assert(p2.0 == counts_view(res@) && p2.1 == counts_view(unres@) && p2.2 == lists_view(
            back@,
        ));
    }
    let backlinks = finalize_lists(back);
    let tags_index = finalize_lists(ti);
    let r = MetadataCacheState {
        file_cache: fc,
        resolved_links: res,
        unresolved_links: unres,
        backlinks,
        tags_index,
    };
    proof {
        assert(r.v().file_cache == spec_build_metadata(nv, fv).file_cache);
        assert(r.v().resolved_links == spec_build_metadata(nv, fv).resolved_links);
        assert(r.v().unresolved_links == spec_build_metadata(nv, fv).unresolved_links);
        assert(r.v().backlinks == spec_build_metadata(nv, fv).backlinks);
        assert(r.v().tags_index == spec_build_metadata(nv, fv).tags_index);
    }
    r
}

// ---------------------------------------------------------------------------
// Wiki-link rewriting on rename.
// ---------------------------------------------------------------------------

/// The final component of an extension-stripped path.
pub open spec fn spec_last_component(p: Seq<u8>) -> Seq<u8> {
    let k = spec_rfind_byte(p, 47, p.len() as int);
    if k >= 0 {
        p.subrange(k + 1, p.len() as int)
    } else {
        p
    }
}

/// How one wiki link's inner text reacts to a rename: a target whose
/// key matches the renamed note — by full path, extension-free path or,
/// when the stem is unambiguous, bare stem — is rebuilt against the new
/// path, keeping the link's path/extension shape, heading and alias;
/// anything else is kept as it stands.
pub open spec fn spec_rewrite_inner(
    inner: Seq<u8>,
    k1: Seq<u8>,
    k2: Seq<u8>,
    k3: Option<Seq<u8>>,
    new_no_ext: Seq<u8>,
    new_stem: Seq<u8>,
) -> Option<Seq<u8>> {
    let parts = crate::paths::spec_split_wikilink(inner);
    let tt = spec_trim(parts.0);
    if tt.len() == 0 {
        None
    } else {
        let tk = crate::paths::spec_normalize_link_key(tt);
        let member = tk == k1 || tk == k2 || (match k3 {
            Some(k) => tk == k,
            None => false,
        });
        if !member {
            None
        } else {
            let base = if spec_find_byte(tt, 47, 0) < tt.len() {
                new_no_ext
            } else {
                new_stem
            };
            let with_ext = if spec_ends_md(tt) {
                base + ".md".spec_bytes()
            } else {
                base
            };
            let with_heading = match parts.1 {
                Some(h) => if h.len() > 0 {
                    with_ext + seq![35u8] + h
                } else {
                    with_ext
                },
                None => with_ext,
            };
            Some(
                match parts.2 {
                    Some(a) => with_heading + seq![124u8] + a,
                    None => with_heading,
                },
            )
        }
    }
}

/// The rewritten text from byte `i` on, with whether anything changed.
pub open spec fn spec_rewrite_from(
    content: Seq<u8>,
    i: int,
    k1: Seq<u8>,
    k2: Seq<u8>,
    k3: Option<Seq<u8>>,
    new_no_ext: Seq<u8>,
    new_stem: Seq<u8>,
) -> (Seq<u8>, bool)
    decreases content.len() - i,
{
    if !(0 <= i < content.len()) {
        (Seq::empty(), false)
    } else {
        match spec_kind_at(InlineKind::Wiki, content, i, None) {
            Some(m) => {
                let nxt0 = spec_max(i + 1, m.end);
                let nxt = if nxt0 > content.len() {
                    content.len() as int
                } else {
                    nxt0
                };
                let rest = spec_rewrite_from(content, nxt, k1, k2, k3, new_no_ext, new_stem);
                match spec_rewrite_inner(
                    content.subrange(m.inner_start, m.inner_end),
                    k1,
                    k2,
                    k3,
                    new_no_ext,
                    new_stem,
                ) {
                    Some(rb) => ("[[".spec_bytes() + rb + "]]".spec_bytes() + rest.0, true),
                    None => (content.subrange(m.start, m.end) + rest.0, rest.1),
                }
            },
            None => {
                let rest = spec_rewrite_from(content, i + 1, k1, k2, k3, new_no_ext, new_stem);
                (seq![content[i]] + rest.0, rest.1)
            },
        }
    }
}

/// What rewriting does to a note's text when `old_path` becomes
/// `new_path`: every wiki link naming the old note — by path,
/// extension-free path or, when `include_stem_match` says the stem is
/// unambiguous, bare stem — is rebuilt against the new path.
pub open spec fn spec_rewrite_wiki_links(
    content: Seq<u8>,
    old_path: Seq<u8>,
    new_path: Seq<u8>,
    include_stem_match: bool,
) -> (Seq<u8>, bool) {
    let old_no_ext = crate::paths::spec_strip_md(old_path);
    let new_no_ext = crate::paths::spec_strip_md(new_path);
    let old_stem = spec_last_component(old_no_ext);
    let new_stem = spec_last_component(new_no_ext);
    spec_rewrite_from(
        content,
        0,
        crate::paths::spec_normalize_link_key(old_path),
        crate::paths::spec_normalize_link_key(old_no_ext),
        if include_stem_match {
            Some(crate::paths::spec_normalize_link_key(old_stem))
        } else {
            None
        },
        new_no_ext,
        new_stem,
    )
}

fn last_component(p: &Vec<u8>) -> (r: Vec<u8>)
    ensures
        r@ == spec_last_component(p@),
{
    let n = p.len();
    match rfind_byte(p, 47) {
        Some(k) => copy_range(p, k + 1, n),
        None => {
            let r = copy_range(p, 0, p.len());
            proof {
                assert(r@ =~= p@);
            }
            r
        },
    }
}

#[verifier::rlimit(60)]
fn rewrite_inner(
    inner: &Vec<u8>,
    k1: &Vec<u8>,
    k2: &Vec<u8>,
    k3: &Option<Vec<u8>>,
    new_no_ext: &Vec<u8>,
    new_stem: &Vec<u8>,
) -> (r: Option<Vec<u8>>)
    ensures
        ({
            let k3v = match k3 {
                Some(k) => Some(k@),
                None => None,
            };
            match r {
                Some(v) => spec_rewrite_inner(inner@, k1@, k2@, k3v, new_no_ext@, new_stem@)
                    == Some(v@),
                None => spec_rewrite_inner(inner@, k1@, k2@, k3v, new_no_ext@, new_stem@)
                    is None,
            }
        }),
{
    let parts = crate::paths::split_wikilink_inner(inner);
    let tt = trim_bytes(&parts.0);
    if tt.len() == 0 {
        return None;
    }
    let tk = crate::paths::normalize_link_key(&tt);
    let member = bytes_eq(&tk, k1) || bytes_eq(&tk, k2) || (match k3 {
        Some(k) => bytes_eq(&tk, k),
        None => false,
    });
    if !member {
        return None;
    }
    let mut out: Vec<u8> = Vec::new();
    if find_byte(&tt, 47, 0) < tt.len() {
        push_bytes(&mut out, new_no_ext);
    } else {
        push_bytes(&mut out, new_stem);
    }
    if crate::paths::ends_md(&tt) {
        push_str_bytes(&mut out, ".md");
    }
    match &parts.1 {
        Some(h) => {
            if h.len() > 0 {
                out.push(35);
                push_bytes(&mut out, h);
            }
        },
        None => {},
    }
    match &parts.2 {
        Some(a) => {
            out.push(124);
            push_bytes(&mut out, a);
        },
        None => {},
    }
    proof {
        let k3v = match k3 {
            Some(k) => Some(k@),
            None => None,
        };
        assert(out@ =~= spec_rewrite_inner(inner@, k1@, k2@, k3v, new_no_ext@, new_stem@)
            .unwrap());
    }
    Some(out)
}

/// Rewrites every wiki link that names the renamed note, returning the
/// new text and whether anything changed.
#[verifier::loop_isolation(false)]
#[verifier::rlimit(100)]
pub fn rewrite_wiki_links(
    content: &Vec<u8>,
    old_path: &Vec<u8>,
    new_path: &Vec<u8>,
    include_stem_match: bool,
) -> (r: (Vec<u8>, bool))
    ensures
        r.0@ == spec_rewrite_wiki_links(content@, old_path@, new_path@, include_stem_match).0,
        r.1 == spec_rewrite_wiki_links(content@, old_path@, new_path@, include_stem_match).1,
{
    let old_no_ext = crate::paths::strip_md(old_path);
    let new_no_ext = crate::paths::strip_md(new_path);
    let old_stem = last_component(&old_no_ext);
    let new_stem = last_component(&new_no_ext);
    let k1 = crate::paths::normalize_link_key(old_path);
    let k2 = crate::paths::normalize_link_key(&old_no_ext);
    let k3: Option<Vec<u8>> = if include_stem_match {
        Some(crate::paths::normalize_link_key(&old_stem))
    } else {
        None
    };
    let ghost k3v: Option<Seq<u8>> = match &k3 {
        Some(k) => Some(k@),
        None => None,
    };
    let mut out: Vec<u8> = Vec::new();
    let mut changed = false;
    let mut i: usize = 0;
    while i < content.len()
        invariant
            i <= content@.len(),
            k1@ == crate::paths::spec_normalize_link_key(old_path@),
            k2@ == crate::paths::spec_normalize_link_key(
                crate::paths::spec_strip_md(old_path@),
            ),
            new_no_ext@ == crate::paths::spec_strip_md(new_path@),
            new_stem@ == spec_last_component(crate::paths::spec_strip_md(new_path@)),
            k3v == (match k3 {
                Some(k) => Some(k@),
                None => None,
            }),
            include_stem_match ==> k3v == Some(
                crate::paths::spec_normalize_link_key(
                    spec_last_component(crate::paths::spec_strip_md(old_path@)),
                ),
            ),
            !include_stem_match ==> k3v is None,
            ({
                let full = spec_rewrite_from(content@, 0, k1@, k2@, k3v, new_no_ext@, new_stem@);
                let rest = spec_rewrite_from(
                    content@,
                    i as int,
                    k1@,
                    k2@,
                    k3v,
                    new_no_ext@,
                    new_stem@,
                );
                full.0 == out@ + rest.0 && full.1 == (changed || rest.1)
            }),
        decreases content@.len() - i,
    {
        let ghost pre = out@;
        match kind_at(InlineKind::Wiki, content, i, None) {
            Some(m) => {
                let next = m.end;
                let inner = copy_range(content, m.inner_start, m.inner_end);
                proof {
                    assert(spec_max(i + 1, m.m().end) == m.m().end);
                    assert(inner@ =~= content@.subrange(m.m().inner_start, m.m().inner_end));
                }
                match rewrite_inner(&inner, &k1, &k2, &k3, &new_no_ext, &new_stem) {
                    Some(rb) => {
                        push_str_bytes(&mut out, "[[");
                        push_bytes(&mut out, &rb);
                        push_str_bytes(&mut out, "]]");
                        changed = true;
                        proof {
                            assert(out@ =~= pre + ("[[".spec_bytes() + rb@ + "]]".spec_bytes()));
                        }
                    },
                    None => {
                        crate::editor::push_range(&mut out, content, m.start, m.end);
                    },
                }
                i = next;
            },
            None => {
                let b = content[i];
                out.push(b);
                i += 1;
            },
        }
        proof {
            let full = spec_rewrite_from(content@, 0, k1@, k2@, k3v, new_no_ext@, new_stem@);
            let rest = spec_rewrite_from(content@, i as int, k1@, k2@, k3v, new_no_ext@, new_stem@);
            assert(full.0 =~= out@ + rest.0);
        }
    }
    (out, changed)
}

} // verus!
