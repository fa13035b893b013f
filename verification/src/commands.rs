//! Markdown command builder: translates semantic editing intents — wrap a
//! selection in delimiters, prefix the current line, indent or outdent,
//! continue a list or quote block, auto-pair brackets — into transactions
//! against the current snapshot and applies them.
//!
//! A command that does not apply to the current context (outdent on an
//! unindented line, block continuation on a plain line) returns `false`
//! without touching the snapshot; that is an expected outcome, not an
//! error.

use vstd::prelude::*;
use crate::editor::{
    Selection, TextChange, Transaction, EditorSnapshot, CoreError, ChangeOrigin, valid_change,
    lemma_apply_single, lemma_clamp_identity, push_bytes, push_range, copy_range,
};
use crate::scan::{
    is_bullet, spec_ws_run, spec_digit_run, spec_all_ws, spec_digits_val, spec_u64_dec,
    spec_line_start, spec_line_end, ws_run, digit_run, all_ws_from, parse_digits_capped,
    push_u64_dec, line_start, line_end, byte_is_bullet, lemma_digit_run_bounds, spec_dec_digits,
};

verus! {

/// A semantic editing intent, built from a fixed, exhaustively matched
/// command set.
#[derive(Clone, Debug, PartialEq, Eq)]
pub enum MarkdownCommand {
    Wrap { open: Vec<u8>, close: Vec<u8>, label: &'static str },
    PrefixLine { prefix: Vec<u8>, label: &'static str },
    Indent,
    Outdent,
    ContinueBlock,
    AutoPair { open: Vec<u8>, close: Vec<u8> },
}

// ---------------------------------------------------------------------------
// Specification of each command's effect.
// ---------------------------------------------------------------------------

/// The block indent transform past its first line: every byte is kept,
/// and four spaces follow every newline.
pub open spec fn spec_indent_tail(block: Seq<u8>, i: int) -> Seq<u8>
    decreases block.len() - i,
{
    if !(0 <= i < block.len()) {
        Seq::empty()
    } else if block[i] == 10 {
        seq![10u8, 32u8, 32u8, 32u8, 32u8] + spec_indent_tail(block, i + 1)
    } else {
        seq![block[i]] + spec_indent_tail(block, i + 1)
    }
}

/// The block indent transform: four spaces before every line of the
/// block.
pub open spec fn spec_indent_block(block: Seq<u8>) -> Seq<u8> {
    seq![32u8, 32u8, 32u8, 32u8] + spec_indent_tail(block, 0)
}

/// How much leading whitespace one outdent step removes at a line start:
/// one tab, or up to four spaces.
pub open spec fn spec_outdent_skip(s: Seq<u8>, i: int) -> int {
    if 0 <= i < s.len() && s[i] == 9 {
        1
    } else if !(0 <= i < s.len() && s[i] == 32) {
        0
    } else if !(i + 1 < s.len() && s[i + 1] == 32) {
        1
    } else if !(i + 2 < s.len() && s[i + 2] == 32) {
        2
    } else if !(i + 3 < s.len() && s[i + 3] == 32) {
        3
    } else {
        4
    }
}

/// The block outdent transform past the first line start: every byte is
/// kept, and after every newline the next line's removable leading
/// whitespace is dropped.
pub open spec fn spec_outdent_tail(s: Seq<u8>, i: int) -> Seq<u8>
    decreases s.len() - i,
{
    if !(0 <= i < s.len()) {
        Seq::empty()
    } else if s[i] == 10 {
        seq![10u8] + spec_outdent_tail(s, i + 1 + spec_outdent_skip(s, i + 1))
    } else {
        seq![s[i]] + spec_outdent_tail(s, i + 1)
    }
}

/// The block outdent transform: each line loses one leading tab or up to
/// four leading spaces.
pub open spec fn spec_outdent_block(block: Seq<u8>) -> Seq<u8> {
    spec_outdent_tail(block, spec_outdent_skip(block, 0))
}

/// A task item line: whitespace, a bullet, whitespace, a `[ ]`/`[x]`/`[X]`
/// box, then whitespace and the body. Returns the end of the
/// bullet-plus-whitespace prefix and the start of the body.
pub open spec fn spec_task_parse(line: Seq<u8>) -> Option<(int, int)> {
    let a = spec_ws_run(line, 0);
    if !(a < line.len() && is_bullet(line[a])) {
        None
    } else {
        let w = spec_ws_run(line, a + 1);
        if w < 1 {
            None
        } else {
            let p = a + 1 + w;
            if p + 2 < line.len() && line[p] == 91 && (line[p + 1] == 32 || line[p + 1] == 120
                || line[p + 1] == 88) && line[p + 2] == 93 && spec_ws_run(line, p + 3) >= 1 {
                Some((p, p + 3 + spec_ws_run(line, p + 3)))
            } else {
                None
            }
        }
    }
}

/// An ordered list line: whitespace, digits, a dot, whitespace, body.
/// Returns the indentation end, the digits' end and the body start.
pub open spec fn spec_ol_parse(line: Seq<u8>) -> Option<(int, int, int)> {
    let a = spec_ws_run(line, 0);
    let d = spec_digit_run(line, a);
    if d >= 1 && a + d < line.len() && line[a + d] == 46 && spec_ws_run(line, a + d + 1) >= 1 {
        Some((a, a + d, a + d + 1 + spec_ws_run(line, a + d + 1)))
    } else {
        None
    }
}

/// An unordered list line: whitespace, a bullet, whitespace, body.
/// Returns the end of the marker prefix, which is also the body start.
pub open spec fn spec_ul_parse(line: Seq<u8>) -> Option<int> {
    let a = spec_ws_run(line, 0);
    if !(a < line.len() && is_bullet(line[a])) {
        None
    } else {
        let w = spec_ws_run(line, a + 1);
        if w < 1 {
            None
        } else {
            Some(a + 1 + w)
        }
    }
}

/// A blockquote line: whitespace, `>`, whitespace, body. Returns the end
/// of the quote prefix, which is also the body start.
pub open spec fn spec_quote_parse(line: Seq<u8>) -> Option<int> {
    let a = spec_ws_run(line, 0);
    if !(a < line.len() && line[a] == 62) {
        None
    } else {
        let w = spec_ws_run(line, a + 1);
        if w < 1 {
            None
        } else {
            Some(a + 1 + w)
        }
    }
}

/// The next ordered-list marker: the parsed value plus one. Digits that
/// overflow the counter type parse to the fallback 1, and the increment
/// saturates at the counter maximum.
pub open spec fn spec_next_marker(digits: Seq<u8>) -> int {
    let v = spec_digits_val(digits);
    let m = if v <= u64::MAX {
        v
    } else {
        1int
    };
    if m == u64::MAX {
        m
    } else {
        m + 1
    }
}

/// What a structural Enter inserts at the caret for a recognized block
/// line, in priority order: task item, ordered list, unordered list,
/// blockquote; a recognized line with a blank body yields a bare newline
/// (exiting the block), and an unrecognized line yields nothing.
pub open spec fn spec_continue_insert(line: Seq<u8>) -> Option<Seq<u8>> {
    match spec_task_parse(line) {
        Some((p, bs)) => Some(
            if spec_all_ws(line, bs) {
                seq![10u8]
            } else {
                seq![10u8] + line.subrange(0, p) + seq![91u8, 32u8, 93u8, 32u8]
            },
        ),
        None => match spec_ol_parse(line) {
            Some((a, de, bs)) => Some(
                if spec_all_ws(line, bs) {
                    seq![10u8]
                } else {
                    seq![10u8] + line.subrange(0, a) + spec_u64_dec(
                        spec_next_marker(line.subrange(a, de)),
                    ) + seq![46u8, 32u8]
                },
            ),
            None => match spec_ul_parse(line) {
                Some(p) => Some(
                    if spec_all_ws(line, p) {
                        seq![10u8]
                    } else {
                        seq![10u8] + line.subrange(0, p)
                    },
                ),
                None => match spec_quote_parse(line) {
                    Some(p) => Some(
                        if spec_all_ws(line, p) {
                            seq![10u8]
                        } else {
                            seq![10u8] + line.subrange(0, p)
                        },
                    ),
                    None => None,
                },
            },
        },
    }
}

/// The machine limits a command needs so that no offset arithmetic can
/// exceed the address space; every realizable text satisfies them.
pub open spec fn spec_command_fits(command: MarkdownCommand, len: int) -> bool {
    match command {
        MarkdownCommand::Wrap { open, close, .. } => len + open@.len() + close@.len()
            <= usize::MAX,
        MarkdownCommand::AutoPair { open, close } => len + open@.len() + close@.len()
            <= usize::MAX,
        MarkdownCommand::PrefixLine { prefix, .. } => len + prefix@.len() <= usize::MAX,
        MarkdownCommand::Indent => 6 * len + 8 <= usize::MAX,
        MarkdownCommand::Outdent => 2 * len <= usize::MAX,
        MarkdownCommand::ContinueBlock => 2 * len + 32 <= usize::MAX,
    }
}

/// The new text and selection a command produces from the current state,
/// or `None` where the command does not apply and the state is kept.
pub open spec fn spec_command_outcome(t: Seq<u8>, sel0: Selection, command: MarkdownCommand) -> Option<
    (Seq<u8>, Selection),
> {
    let len = t.len() as int;
    let sel = sel0.spec_clamp(len);
    match command {
        MarkdownCommand::Wrap { open, close, .. } => Some(spec_wrap_outcome(t, sel, open@, close@)),
        MarkdownCommand::AutoPair { open, close } => Some(spec_wrap_outcome(t, sel, open@, close@)),
        MarkdownCommand::PrefixLine { prefix, .. } => Some(spec_prefix_line_outcome(t, sel, prefix@)),
        MarkdownCommand::Indent => Some(spec_indent_outcome(t, sel)),
        MarkdownCommand::Outdent => spec_outdent_outcome(t, sel),
        MarkdownCommand::ContinueBlock => spec_continue_outcome(t, sel),
    }
}

/// Wrapping replaces the selection with `open + selected + close`; a
/// caret lands right after `open`, a range selection collapses to just
/// after the inserted `close`.
pub open spec fn spec_wrap_outcome(t: Seq<u8>, sel: Selection, open: Seq<u8>, close: Seq<u8>) -> (
    Seq<u8>,
    Selection,
) {
    let len = t.len() as int;
    let t1 = t.subrange(0, sel.start as int) + open + t.subrange(sel.start as int, sel.end as int)
        + close + t.subrange(sel.end as int, len);
    let caret = if sel.start == sel.end {
        sel.start + open.len()
    } else {
        sel.end + open.len() + close.len()
    };
    (t1, Selection { start: caret as usize, end: caret as usize })
}

/// Prefixing inserts `prefix` at the start of the line holding the
/// selection start and shifts both selection ends right by its length.
pub open spec fn spec_prefix_line_outcome(t: Seq<u8>, sel: Selection, prefix: Seq<u8>) -> (
    Seq<u8>,
    Selection,
) {
    let len = t.len() as int;
    let ls = spec_line_start(t, sel.start as int);
    let t1 = t.subrange(0, ls) + prefix + t.subrange(ls, len);
    (
        t1,
        Selection {
            start: (sel.start + prefix.len()) as usize,
            end: (sel.end + prefix.len()) as usize,
        },
    )
}

/// Indent: a caret gets four spaces inserted at the caret; a range
/// selection has every touched line prefixed with four spaces and the
/// selection replaced by the whole transformed block.
pub open spec fn spec_indent_outcome(t: Seq<u8>, sel: Selection) -> (Seq<u8>, Selection) {
    let len = t.len() as int;
    if sel.start == sel.end {
        let t1 = t.subrange(0, sel.start as int) + seq![32u8, 32u8, 32u8, 32u8] + t.subrange(
            sel.start as int,
            len,
        );
        (t1, Selection { start: (sel.start + 4) as usize, end: (sel.start + 4) as usize })
    } else {
        let bs = spec_line_start(t, sel.start as int);
        let be = spec_line_end(t, sel.end as int);
        let transformed = spec_indent_block(t.subrange(bs, be));
        let t1 = t.subrange(0, bs) + transformed + t.subrange(be, len);
        (
            t1,
            Selection { start: bs as usize, end: (bs + transformed.len()) as usize },
        )
    }
}

/// Outdent: a caret removes up to one tab or four spaces from the start
/// of its line — or does not apply when the line has no removable
/// whitespace; a range selection applies the removal to every touched
/// line and selects the transformed block.
pub open spec fn spec_outdent_outcome(t: Seq<u8>, sel: Selection) -> Option<(Seq<u8>, Selection)> {
    let len = t.len() as int;
    if sel.start == sel.end {
        let ls = spec_line_start(t, sel.start as int);
        let le = spec_line_end(t, sel.start as int);
        let remove = spec_outdent_skip(t, ls);
        if remove == 0 {
            None
        } else {
            let t1 = t.subrange(0, ls) + t.subrange(ls + remove, le) + t.subrange(le, len);
            let caret = if sel.start - ls >= remove {
                sel.start - remove
            } else {
                ls
            };
            Some((t1, Selection { start: caret as usize, end: caret as usize }))
        }
    } else {
        let bs = spec_line_start(t, sel.start as int);
        let be = spec_line_end(t, sel.end as int);
        let transformed = spec_outdent_block(t.subrange(bs, be));
        let t1 = t.subrange(0, bs) + transformed + t.subrange(be, len);
        Some((t1, Selection { start: bs as usize, end: (bs + transformed.len()) as usize }))
    }
}

/// Block continuation: only at a caret, on a line recognized as a task,
/// ordered, unordered or quote block; inserts the continuation at the
/// caret and puts the caret after it.
pub open spec fn spec_continue_outcome(t: Seq<u8>, sel: Selection) -> Option<(Seq<u8>, Selection)> {
    let len = t.len() as int;
    if sel.start != sel.end {
        None
    } else {
        let ls = spec_line_start(t, sel.start as int);
        let le = spec_line_end(t, sel.start as int);
        match spec_continue_insert(t.subrange(ls, le)) {
            None => None,
            Some(ins) => {
                let t1 = t.subrange(0, sel.start as int) + ins + t.subrange(sel.start as int, len);
                let caret = sel.start + ins.len();
                Some((t1, Selection { start: caret as usize, end: caret as usize }))
            },
        }
    }
}

// ---------------------------------------------------------------------------
// Length bounds of the transforms.
// ---------------------------------------------------------------------------

proof fn lemma_indent_tail_len(block: Seq<u8>, i: int)
    ensures
        spec_indent_tail(block, i).len() <= 5 * (if i < block.len() {
            block.len() - i
        } else {
            0int
        }),
    decreases block.len() - i,
{
    if 0 <= i < block.len() {
        lemma_indent_tail_len(block, i + 1);
    }
}

proof fn lemma_outdent_skip_bounds(s: Seq<u8>, i: int)
    requires
        0 <= i <= s.len(),
    ensures
        0 <= spec_outdent_skip(s, i),
        i + spec_outdent_skip(s, i) <= s.len(),
{
}

proof fn lemma_outdent_tail_len(s: Seq<u8>, i: int)
    requires
        0 <= i <= s.len(),
    ensures
        spec_outdent_tail(s, i).len() <= s.len() - i,
    decreases s.len() - i,
{
    if 0 <= i < s.len() {
        if s[i] == 10 {
            lemma_outdent_skip_bounds(s, i + 1);
            lemma_outdent_tail_len(s, i + 1 + spec_outdent_skip(s, i + 1));
        } else {
            lemma_outdent_tail_len(s, i + 1);
        }
    }
}

/// Powers of ten, for bounding decimal renderings.
pub open spec fn spec_pow10(k: nat) -> int
    decreases k,
{
    if k == 0 {
        1
    } else {
        10 * spec_pow10((k - 1) as nat)
    }
}

proof fn lemma_dec_digits_len(n: int, k: nat)
    requires
        0 <= n < spec_pow10(k),
    ensures
        spec_dec_digits(n).len() <= k,
    decreases k,
{
    if n > 0 {
        if k == 0 {
        } else {
            lemma_dec_digits_len(n / 10, (k - 1) as nat);
        }
    }
}

proof fn lemma_u64_dec_len(n: int)
    requires
        0 <= n <= u64::MAX,
    ensures
        1 <= spec_u64_dec(n).len() <= 20,
{
    reveal_with_fuel(spec_pow10, 21);
    assert(spec_pow10(20) == 100000000000000000000);
    lemma_dec_digits_len(n, 20);
    if n > 0 {
        assert(spec_dec_digits(n).len() >= 1);
    }
}

// ---------------------------------------------------------------------------
// Executable transforms and parsers.
// ---------------------------------------------------------------------------

#[verifier::loop_isolation(false)]
fn indent_block_bytes(block: &Vec<u8>) -> (r: Vec<u8>)
    ensures
        r@ == spec_indent_block(block@),
{
    let mut out: Vec<u8> = Vec::new();
    out.push(32);
    out.push(32);
    out.push(32);
    out.push(32);
    proof {
        assert(out@ =~= seq![32u8, 32u8, 32u8, 32u8]);
    }
    let mut i: usize = 0;
    while i < block.len()
        invariant
            i <= block@.len(),
            out@ + spec_indent_tail(block@, i as int) == spec_indent_block(block@),
        decreases block@.len() - i,
    {
        let b = block[i];
        if b == 10 {
            out.push(10);
            out.push(32);
            out.push(32);
            out.push(32);
            out.push(32);
        } else {
            out.push(b);
        }
        i += 1;
        proof {
            assert(out@ + spec_indent_tail(block@, i as int) =~= spec_indent_block(block@));
        }
    }
    proof {
        assert(out@ =~= out@ + spec_indent_tail(block@, i as int));
    }
    out
}

/// The removable leading whitespace at `i`: one tab, or up to four
/// spaces.
fn outdent_skip_at(s: &Vec<u8>, i: usize) -> (r: usize)
    requires
        i <= s@.len(),
    ensures
        r as int == spec_outdent_skip(s@, i as int),
        i + r <= s@.len(),
{
    let len = s.len();
    if i < len && s[i] == 9 {
        1
    } else if !(i < len && s[i] == 32) {
        0
    } else if !(i + 1 < len && s[i + 1] == 32) {
        1
    } else if !(i + 2 < len && s[i + 2] == 32) {
        2
    } else if !(i + 3 < len && s[i + 3] == 32) {
        3
    } else {
        4
    }
}

#[verifier::loop_isolation(false)]
fn outdent_block_bytes(block: &Vec<u8>) -> (r: Vec<u8>)
    ensures
        r@ == spec_outdent_block(block@),
{
    let mut out: Vec<u8> = Vec::new();
    let mut i: usize = outdent_skip_at(block, 0);
    proof {
        assert(out@ + spec_outdent_tail(block@, i as int) =~= spec_outdent_block(block@));
    }
    while i < block.len()
        invariant
            i <= block@.len(),
            out@ + spec_outdent_tail(block@, i as int) == spec_outdent_block(block@),
        decreases block@.len() - i,
    {
        let b = block[i];
        if b == 10 {
            out.push(10);
            let sk = outdent_skip_at(block, i + 1);
            i = i + 1 + sk;
        } else {
            out.push(b);
            i += 1;
        }
        proof {
            assert(out@ + spec_outdent_tail(block@, i as int) =~= spec_outdent_block(block@));
        }
    }
    proof {
        assert(out@ =~= out@ + spec_outdent_tail(block@, i as int));
    }
    out
}

pub(crate) fn task_parse(line: &Vec<u8>) -> (r: Option<(usize, usize)>)
    ensures
        match r {
            Some((p, bs)) => spec_task_parse(line@) == Some((p as int, bs as int)) && p <= bs
                <= line@.len(),
            None => spec_task_parse(line@) is None,
        },
{
    let a = ws_run(line, 0);
    if !(a < line.len() && byte_is_bullet(line[a])) {
        return None;
    }
    let w = ws_run(line, a + 1);
    if w < 1 {
        return None;
    }
    let p = a + 1 + w;
    let n = line.len();
    if n > 2 && p < n - 2 && line[p] == 91 && (line[p + 1] == 32 || line[p + 1] == 120 || line[p
        + 1] == 88) && line[p + 2] == 93 {
        let w2 = ws_run(line, p + 3);
        if w2 >= 1 {
            return Some((p, p + 3 + w2));
        }
    }
    None
}

fn ol_parse(line: &Vec<u8>) -> (r: Option<(usize, usize, usize)>)
    ensures
        match r {
            Some((a, de, bs)) => spec_ol_parse(line@) == Some((a as int, de as int, bs as int))
                && a <= de <= bs <= line@.len(),
            None => spec_ol_parse(line@) is None,
        },
{
    let n = line.len();
    let a = ws_run(line, 0);
    let d = digit_run(line, a);
    if d >= 1 && a + d < n && line[a + d] == 46 {
        let w = ws_run(line, a + d + 1);
        if w >= 1 {
            return Some((a, a + d, a + d + 1 + w));
        }
    }
    None
}

pub(crate) fn ul_parse(line: &Vec<u8>) -> (r: Option<usize>)
    ensures
        match r {
            Some(p) => spec_ul_parse(line@) == Some(p as int) && p <= line@.len(),
            None => spec_ul_parse(line@) is None,
        },
{
    let a = ws_run(line, 0);
    if !(a < line.len() && byte_is_bullet(line[a])) {
        return None;
    }
    let w = ws_run(line, a + 1);
    if w < 1 {
        return None;
    }
    Some(a + 1 + w)
}

fn quote_parse(line: &Vec<u8>) -> (r: Option<usize>)
    ensures
        match r {
            Some(p) => spec_quote_parse(line@) == Some(p as int) && p <= line@.len(),
            None => spec_quote_parse(line@) is None,
        },
{
    let a = ws_run(line, 0);
    if !(a < line.len() && line[a] == 62) {
        return None;
    }
    let w = ws_run(line, a + 1);
    if w < 1 {
        return None;
    }
    Some(a + 1 + w)
}

/// What a structural Enter inserts for this line, if it is a recognized
/// block line.
fn continue_insert(line: &Vec<u8>) -> (r: Option<Vec<u8>>)
    ensures
        match r {
            Some(v) => spec_continue_insert(line@) == Some(v@) && 1 <= v@.len() <= line@.len()
                + 24,
            None => spec_continue_insert(line@) is None,
        },
{
    if let Some((p, bs)) = task_parse(line) {
        let mut out: Vec<u8> = Vec::new();
        out.push(10);
        if all_ws_from(line, bs) {
            proof {
                assert(out@ =~= seq![10u8]);
            }
            return Some(out);
        }
        push_range(&mut out, line, 0, p);
        out.push(91);
        out.push(32);
        out.push(93);
        out.push(32);
        proof {
            assert(out@ =~= seq![10u8] + line@.subrange(0, p as int) + seq![
                91u8,
                32u8,
                93u8,
                32u8,
            ]);
        }
        return Some(out);
    }
    if let Some((a, de, bs)) = ol_parse(line) {
        let mut out: Vec<u8> = Vec::new();
        out.push(10);
        if all_ws_from(line, bs) {
            proof {
                assert(out@ =~= seq![10u8]);
            }
            return Some(out);
        }
        push_range(&mut out, line, 0, a);
        proof {
            lemma_digit_run_bounds(line@, a as int);
            assert(forall|k: int| a <= k < de ==> crate::scan::is_digit(#[trigger] line@[k]));
        }
        let m = parse_digits_capped(line, a, de);
        let next: u64 = if m == u64::MAX {
            m
        } else {
            m + 1
        };
        push_u64_dec(&mut out, next);
        out.push(46);
        out.push(32);
        proof {
            lemma_u64_dec_len(next as int);
            assert(next as int == spec_next_marker(line@.subrange(a as int, de as int)));
            assert(out@ =~= seq![10u8] + line@.subrange(0, a as int) + spec_u64_dec(
                spec_next_marker(line@.subrange(a as int, de as int)),
            ) + seq![46u8, 32u8]);
        }
        return Some(out);
    }
    if let Some(p) = ul_parse(line) {
        let mut out: Vec<u8> = Vec::new();
        out.push(10);
        if all_ws_from(line, p) {
            proof {
                assert(out@ =~= seq![10u8]);
            }
            return Some(out);
        }
        push_range(&mut out, line, 0, p);
        proof {
            assert(out@ =~= seq![10u8] + line@.subrange(0, p as int));
        }
        return Some(out);
    }
    if let Some(p) = quote_parse(line) {
        let mut out: Vec<u8> = Vec::new();
        out.push(10);
        if all_ws_from(line, p) {
            proof {
                assert(out@ =~= seq![10u8]);
            }
            return Some(out);
        }
        push_range(&mut out, line, 0, p);
        proof {
            assert(out@ =~= seq![10u8] + line@.subrange(0, p as int));
        }
        return Some(out);
    }
    None
}

// ---------------------------------------------------------------------------
// Laws of the block transforms.
// ---------------------------------------------------------------------------

proof fn lemma_outdent_after_indent(b: Seq<u8>, s: Seq<u8>, i: int, j: int)
    requires
        0 <= i <= b.len(),
        0 <= j <= s.len(),
        s.subrange(j, s.len() as int) == spec_indent_tail(b, i),
    ensures
        spec_outdent_tail(s, j) == b.subrange(i, b.len() as int),
    decreases b.len() - i,
{
    let suffix = s.subrange(j, s.len() as int);
    if i == b.len() {
        assert(suffix.len() == 0);
        assert(spec_outdent_tail(s, j) =~= b.subrange(i, b.len() as int));
    } else if b[i] == 10 {
        assert(suffix == seq![10u8, 32u8, 32u8, 32u8, 32u8] + spec_indent_tail(b, i + 1));
        assert(forall|k: int| 0 <= k < suffix.len() ==> #[trigger] suffix[k] == s[j + k]);
        assert(suffix[0] == 10 && suffix[1] == 32 && suffix[2] == 32 && suffix[3] == 32
            && suffix[4] == 32);
        assert(s[j] == 10 && s[j + 1] == 32 && s[j + 2] == 32 && s[j + 3] == 32 && s[j + 4] == 32);
        assert(spec_outdent_skip(s, j + 1) == 4);
        let rest = spec_indent_tail(b, i + 1);
        assert forall|k: int| 0 <= k < rest.len() implies s.subrange(j + 5, s.len() as int)[k]
            == rest[k] by {
            assert(suffix[5 + k] == (seq![10u8, 32u8, 32u8, 32u8, 32u8] + rest)[5 + k]);
        };
        assert(s.subrange(j + 5, s.len() as int) =~= spec_indent_tail(b, i + 1));
        lemma_outdent_after_indent(b, s, i + 1, j + 5);
        assert(spec_outdent_tail(s, j) =~= b.subrange(i, b.len() as int));
    } else {
        assert(suffix == seq![b[i]] + spec_indent_tail(b, i + 1));
        assert(forall|k: int| 0 <= k < suffix.len() ==> #[trigger] suffix[k] == s[j + k]);
        assert(suffix[0] == b[i]);
        assert(s[j] == b[i]);
        let rest = spec_indent_tail(b, i + 1);
        assert forall|k: int| 0 <= k < rest.len() implies s.subrange(j + 1, s.len() as int)[k]
            == rest[k] by {
            assert(suffix[1 + k] == (seq![b[i]] + rest)[1 + k]);
        };
        assert(s.subrange(j + 1, s.len() as int) =~= spec_indent_tail(b, i + 1));
        lemma_outdent_after_indent(b, s, i + 1, j + 1);
        assert(spec_outdent_tail(s, j) =~= b.subrange(i, b.len() as int));
    }
}

/// Indenting a block and then outdenting the result is a round trip:
/// every line gains exactly four leading spaces, and one outdent step
/// removes exactly those four again, whatever the block held.
pub proof fn lemma_indent_outdent_roundtrip(block: Seq<u8>)
    ensures
        spec_outdent_block(spec_indent_block(block)) == block,
{
    let s = spec_indent_block(block);
    assert(s[0] == 32 && s[1] == 32 && s[2] == 32 && s[3] == 32);
    assert(spec_outdent_skip(s, 0) == 4);
    assert(s.subrange(4, s.len() as int) =~= spec_indent_tail(block, 0));
    lemma_outdent_after_indent(block, s, 0, 4);
    assert(block.subrange(0, block.len() as int) =~= block);
}

// ---------------------------------------------------------------------------
// Transaction builders.
// ---------------------------------------------------------------------------

/// The built transaction holds exactly one in-bounds change which, applied
/// to `text`, yields `new_text`, and carries `new_sel` as the selection to
/// set afterward — already normalized and within the new text, so the
/// engine's clamp will keep it as is.
pub open spec fn tx_realizes(
    t: Transaction,
    text: Seq<u8>,
    new_text: Seq<u8>,
    new_sel: Selection,
) -> bool {
    &&& t.changes@.len() == 1
    &&& valid_change(t.changes@[0], text.len() as int)
    &&& new_text == text.subrange(0, t.changes@[0].start as int) + t.changes@[0].insert@
        + text.subrange(t.changes@[0].end as int, text.len() as int)
    &&& t.selection_after == Some(new_sel)
    &&& new_sel.normalized()
    &&& new_sel.end <= new_text.len()
}

fn wrap_transaction(
    snapshot: &EditorSnapshot,
    open: Vec<u8>,
    close: Vec<u8>,
    label: &'static str,
) -> (t: Transaction)
    requires
        snapshot.text@.len() + open@.len() + close@.len() <= usize::MAX,
    ensures
        ({
            let o = spec_wrap_outcome(
                snapshot.text@,
                snapshot.selection.spec_clamp(snapshot.text@.len() as int),
                open@,
                close@,
            );
            tx_realizes(t, snapshot.text@, o.0, o.1)
        }),
{
    let len = snapshot.text.len();
    let selection = snapshot.selection.clamp(len);
    let mut insert: Vec<u8> = Vec::new();
    push_bytes(&mut insert, &open);
    push_range(&mut insert, &snapshot.text, selection.start, selection.end);
    push_bytes(&mut insert, &close);
    let selection_after = if selection.is_cursor() {
        Selection::cursor(selection.start + open.len())
    } else {
        // For wrapped selections, collapse the caret after the closing
        // token: the host's transparent text layer keeps no range state.
        Selection::cursor(selection.end + open.len() + close.len())
    };
    let t = Transaction::single(
        TextChange::new(selection.start, selection.end, insert),
        Some(selection_after),
        ChangeOrigin::Command,
        label,
    );
    proof {
        let o = spec_wrap_outcome(
            snapshot.text@,
            snapshot.selection.spec_clamp(snapshot.text@.len() as int),
            open@,
            close@,
        );
        assert(o.0 =~= snapshot.text@.subrange(0, selection.start as int)
            + t.changes@[0].insert@ + snapshot.text@.subrange(
            selection.end as int,
            snapshot.text@.len() as int,
        ));
    }
    t
}

fn prefix_line_transaction(snapshot: &EditorSnapshot, prefix: Vec<u8>, label: &'static str) -> (t:
    Transaction)
    requires
        snapshot.text@.len() + prefix@.len() <= usize::MAX,
    ensures
        ({
            let o = spec_prefix_line_outcome(
                snapshot.text@,
                snapshot.selection.spec_clamp(snapshot.text@.len() as int),
                prefix@,
            );
            tx_realizes(t, snapshot.text@, o.0, o.1)
        }),
{
    let len = snapshot.text.len();
    let selection = snapshot.selection.clamp(len);
    let start = line_start(&snapshot.text, selection.start);
    let selection_after = Selection::new(
        selection.start + prefix.len(),
        selection.end + prefix.len(),
    );
    let plen = prefix.len();
    let t = Transaction::single(
        TextChange::new(start, start, prefix),
        Some(selection_after),
        ChangeOrigin::Command,
        label,
    );
    proof {
        let o = spec_prefix_line_outcome(
            snapshot.text@,
            snapshot.selection.spec_clamp(snapshot.text@.len() as int),
            t.changes@[0].insert@,
        );
        assert(o.0 =~= snapshot.text@.subrange(0, start as int) + t.changes@[0].insert@
            + snapshot.text@.subrange(start as int, snapshot.text@.len() as int));
    }
    t
}

#[verifier::rlimit(30)]
fn indent_or_outdent_transaction(snapshot: &EditorSnapshot, outdent: bool) -> (r: Option<
    Transaction,
>)
    requires
        outdent ==> 2 * snapshot.text@.len() <= usize::MAX,
        !outdent ==> 6 * snapshot.text@.len() + 8 <= usize::MAX,
    ensures
        ({
            let sel = snapshot.selection.spec_clamp(snapshot.text@.len() as int);
            let oc = if outdent {
                spec_outdent_outcome(snapshot.text@, sel)
            } else {
                Some(spec_indent_outcome(snapshot.text@, sel))
            };
            match r {
                Some(t) => oc is Some && tx_realizes(
                    t,
                    snapshot.text@,
                    oc.unwrap().0,
                    oc.unwrap().1,
                ),
                None => oc is None,
            }
        }),
{
    let text = &snapshot.text;
    let len = text.len();
    let selection = snapshot.selection.clamp(len);
    let ghost t0 = text@;

    if selection.is_cursor() {
        if !outdent {
            let mut four: Vec<u8> = Vec::new();
            four.push(32);
            four.push(32);
            four.push(32);
            four.push(32);
            proof {
                assert(four@ =~= seq![32u8, 32u8, 32u8, 32u8]);
            }
            let t = Transaction::single(
                TextChange::new(selection.start, selection.end, four),
                Some(Selection::cursor(selection.start + 4)),
                ChangeOrigin::Command,
                "indent",
            );
            proof {
                let o = spec_indent_outcome(t0, selection);
                assert(o.0 =~= t0.subrange(0, selection.start as int) + t.changes@[0].insert@
                    + t0.subrange(selection.start as int, t0.len() as int));
            }
            return Some(t);
        }
        let ls = line_start(text, selection.start);
        let le = line_end(text, selection.start);
        let remove = outdent_skip_at(text, ls);
        if remove == 0 {
            return None;
        }
        proof {
            lemma_outdent_skip_ws(t0, ls as int);
            crate::scan::lemma_line_end_bounds(t0, selection.start as int);
            if (ls + remove) as int > le as int {
                // The skipped whitespace lies on the caret's line: the
                // line-end scan cannot stop inside it.
                assert(selection.start <= le < ls + remove);
                assert(t0[le as int] == 9 || t0[le as int] == 32);
                assert(false);
            }
        }
        let replaced = copy_range(text, ls + remove, le);
        let cursor_offset = selection.start - ls;
        let new_cursor = if cursor_offset >= remove {
            selection.start - remove
        } else {
            ls
        };
        let t = Transaction::single(
            TextChange::new(ls, le, replaced),
            Some(Selection::cursor(new_cursor)),
            ChangeOrigin::Command,
            "outdent",
        );
        proof {
            let o = spec_outdent_outcome(t0, selection).unwrap();
            assert(o.0 =~= t0.subrange(0, ls as int) + t.changes@[0].insert@ + t0.subrange(
                le as int,
                t0.len() as int,
            ));
        }
        return Some(t);
    }
    let block_start = line_start(text, selection.start);
    let block_end = line_end(text, selection.end);
    proof {
        crate::scan::lemma_line_start_bounds(t0, selection.start as int);
        crate::scan::lemma_line_end_bounds(t0, selection.end as int);
    }
    let block = copy_range(text, block_start, block_end);
    let transformed = if outdent {
        outdent_block_bytes(&block)
    } else {
        indent_block_bytes(&block)
    };
    proof {
        if outdent {
            lemma_outdent_skip_bounds(block@, 0);
            lemma_outdent_tail_len(block@, spec_outdent_skip(block@, 0));
        } else {
            lemma_indent_tail_len(block@, 0);
        }
    }
    let tlen = transformed.len();
    let t = Transaction::single(
        TextChange::new(block_start, block_end, transformed),
        Some(Selection::new(block_start, block_start + tlen)),
        ChangeOrigin::Command,
        if outdent {
            "outdent-block"
        } else {
            "indent-block"
        },
    );
    proof {
        let oc = if outdent {
            spec_outdent_outcome(t0, selection)
        } else {
            Some(spec_indent_outcome(t0, selection))
        };
        let o = oc.unwrap();
        assert(o.0 =~= t0.subrange(0, block_start as int) + t.changes@[0].insert@ + t0.subrange(
            block_end as int,
            t0.len() as int,
        ));
    }
    Some(t)
}

/// Whitespace skipped by one outdent step is spaces or a tab.
proof fn lemma_outdent_skip_ws(s: Seq<u8>, i: int)
    requires
        0 <= i <= s.len(),
    ensures
        forall|k: int|
            i <= k < i + spec_outdent_skip(s, i) ==> (s[k] == 9 || s[k] == 32),
{
}

fn continue_markdown_block_transaction(snapshot: &EditorSnapshot) -> (r: Option<Transaction>)
    requires
        2 * snapshot.text@.len() + 32 <= usize::MAX,
    ensures
        ({
            let oc = spec_continue_outcome(
                snapshot.text@,
                snapshot.selection.spec_clamp(snapshot.text@.len() as int),
            );
            match r {
                Some(t) => oc is Some && tx_realizes(
                    t,
                    snapshot.text@,
                    oc.unwrap().0,
                    oc.unwrap().1,
                ),
                None => oc is None,
            }
        }),
{
    let text = &snapshot.text;
    let len = text.len();
    let selection = snapshot.selection.clamp(len);
    let ghost t0 = text@;
    if !selection.is_cursor() {
        return None;
    }
    let ls = line_start(text, selection.start);
    let le = line_end(text, selection.start);
    let line = copy_range(text, ls, le);
    let insert = match continue_insert(&line) {
        Some(v) => v,
        None => {
            return None;
        },
    };
    let next_cursor = selection.start + insert.len();
    let t = Transaction::single(
        TextChange::new(selection.start, selection.end, insert),
        Some(Selection::cursor(next_cursor)),
        ChangeOrigin::Command,
        "continue-markdown-block",
    );
    proof {
        let o = spec_continue_outcome(t0, selection).unwrap();
        assert(o.0 =~= t0.subrange(0, selection.start as int) + t.changes@[0].insert@
            + t0.subrange(selection.start as int, t0.len() as int));
    }
    Some(t)
}

/// Builds the transaction a command stands for against the current
/// snapshot, or `None` where the command does not apply.
fn build_markdown_transaction(snapshot: &EditorSnapshot, command: MarkdownCommand) -> (r: Option<
    Transaction,
>)
    requires
        spec_command_fits(command, snapshot.text@.len() as int),
    ensures
        ({
            let oc = spec_command_outcome(snapshot.text@, snapshot.selection, command);
            match r {
                Some(t) => oc is Some && tx_realizes(
                    t,
                    snapshot.text@,
                    oc.unwrap().0,
                    oc.unwrap().1,
                ),
                None => oc is None,
            }
        }),
{
    match command {
        MarkdownCommand::Wrap { open, close, label } => Some(
            wrap_transaction(snapshot, open, close, label),
        ),
        MarkdownCommand::PrefixLine { prefix, label } => Some(
            prefix_line_transaction(snapshot, prefix, label),
        ),
        MarkdownCommand::Indent => indent_or_outdent_transaction(snapshot, false),
        MarkdownCommand::Outdent => indent_or_outdent_transaction(snapshot, true),
        MarkdownCommand::ContinueBlock => continue_markdown_block_transaction(snapshot),
        MarkdownCommand::AutoPair { open, close } => Some(
            wrap_transaction(snapshot, open, close, "autopair"),
        ),
    }
}

/// Applies a markdown command to the snapshot: builds its transaction
/// from the current state and applies it atomically, reporting whether
/// anything changed. A command that does not apply returns `Ok(false)`
/// and leaves the snapshot untouched; the built transactions are always
/// valid, so no error is ever returned.
pub fn apply_markdown_command(snapshot: &mut EditorSnapshot, command: MarkdownCommand) -> (r:
    Result<bool, CoreError>)
    requires
        old(snapshot).revision < u64::MAX,
        spec_command_fits(command, old(snapshot).text@.len() as int),
    ensures
        ({
            match spec_command_outcome(old(snapshot).text@, old(snapshot).selection, command) {
                None => r == Ok::<bool, CoreError>(false) && *final(snapshot) == *old(snapshot),
                Some(o) => {
                    &&& final(snapshot).text@ == o.0
                    &&& final(snapshot).selection == o.1
                    &&& final(snapshot).revision == old(snapshot).revision + (
                    if o.0 != old(snapshot).text@ {
                        1int
                    } else {
                        0int
                    })
                    &&& r == Ok::<bool, CoreError>(
                        o.0 != old(snapshot).text@ || o.1 != old(snapshot).selection,
                    )
                },
            }
        }),
{
    let transaction = match build_markdown_transaction(snapshot, command) {
        Some(t) => t,
        None => {
            return Ok(false);
        },
    };
    let ghost t0 = snapshot.text@;
    let ghost c = transaction.changes@[0];
    proof {
        assert(transaction.changes@ =~= seq![c]);
        lemma_apply_single(t0, c);
    }
    match snapshot.apply_transaction(transaction) {
        Ok(o) => {
            proof {
                let oc = spec_command_outcome(old(snapshot).text@, old(snapshot).selection, command)
                    .unwrap();
                lemma_clamp_identity(oc.1, oc.0.len() as int);
            }
            Ok(o.text_changed || o.selection_changed)
        },
        Err(e) => {
            proof {
                assert(false);
            }
            Err(e)
        },
    }
}

} // verus!
