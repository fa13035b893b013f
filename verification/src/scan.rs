//! Byte-level text scanning primitives shared by the command builder, the
//! live formatter and the indexer: line boundaries, whitespace runs,
//! decimal markers and small character classes.

use vstd::prelude::*;
use vstd::string::StringSliceAdditionalSpecFns;

verus! {

/// ASCII whitespace, as it occurs inside a single line of markdown.
pub open spec fn is_ws(b: u8) -> bool {
    b == 32 || b == 9 || b == 11 || b == 12 || b == 13
}

/// An unordered-list bullet: `-`, `*` or `+`.
pub open spec fn is_bullet(b: u8) -> bool {
    b == 45 || b == 42 || b == 43
}

/// An ASCII decimal digit.
pub open spec fn is_digit(b: u8) -> bool {
    48 <= b <= 57
}

/// An ASCII letter.
pub open spec fn is_alpha(b: u8) -> bool {
    (65 <= b <= 90) || (97 <= b <= 122)
}

/// An ASCII letter or digit.
pub open spec fn is_alnum(b: u8) -> bool {
    is_alpha(b) || is_digit(b)
}

pub fn byte_is_ws(b: u8) -> (r: bool)
    ensures
        r == is_ws(b),
{
    b == 32 || b == 9 || b == 11 || b == 12 || b == 13
}

pub fn byte_is_bullet(b: u8) -> (r: bool)
    ensures
        r == is_bullet(b),
{
    b == 45 || b == 42 || b == 43
}

pub fn byte_is_digit(b: u8) -> (r: bool)
    ensures
        r == is_digit(b),
{
    48 <= b && b <= 57
}

pub fn byte_is_alpha(b: u8) -> (r: bool)
    ensures
        r == is_alpha(b),
{
    (65 <= b && b <= 90) || (97 <= b && b <= 122)
}

pub fn byte_is_alnum(b: u8) -> (r: bool)
    ensures
        r == is_alnum(b),
{
    byte_is_alpha(b) || byte_is_digit(b)
}

/// The start of the line containing `pos`: one past the previous newline,
/// or the start of the text.
pub open spec fn spec_line_start(t: Seq<u8>, pos: int) -> int
    decreases pos,
{
    if pos <= 0 {
        0
    } else if t[pos - 1] == 10 {
        pos
    } else {
        spec_line_start(t, pos - 1)
    }
}

/// The end of the line containing `pos`: the next newline at or after
/// `pos`, or the end of the text.
pub open spec fn spec_line_end(t: Seq<u8>, pos: int) -> int
    decreases t.len() - pos,
{
    if pos < 0 || pos >= t.len() {
        t.len() as int
    } else if t[pos] == 10 {
        pos
    } else {
        spec_line_end(t, pos + 1)
    }
}

/// A position clamped to the text length, as the line helpers use it.
pub open spec fn clamp_pos(pos: int, len: int) -> int {
    if pos <= len {
        pos
    } else {
        len
    }
}

pub proof fn lemma_line_start_bounds(t: Seq<u8>, pos: int)
    requires
        0 <= pos <= t.len(),
    ensures
        0 <= spec_line_start(t, pos) <= pos,
        forall|k: int| spec_line_start(t, pos) <= k < pos ==> t[k] != 10,
        spec_line_start(t, pos) > 0 ==> t[spec_line_start(t, pos) - 1] == 10,
    decreases pos,
{
    if pos > 0 && t[pos - 1] != 10 {
        lemma_line_start_bounds(t, pos - 1);
    }
}

pub proof fn lemma_line_end_bounds(t: Seq<u8>, pos: int)
    requires
        0 <= pos <= t.len(),
    ensures
        pos <= spec_line_end(t, pos) <= t.len(),
        forall|k: int| pos <= k < spec_line_end(t, pos) ==> t[k] != 10,
        spec_line_end(t, pos) < t.len() ==> t[spec_line_end(t, pos)] == 10,
    decreases t.len() - pos,
{
    if pos < t.len() && t[pos] != 10 {
        lemma_line_end_bounds(t, pos + 1);
    }
}

/// The start of the line containing `pos` (clamped to the text).
#[verifier::loop_isolation(false)]
pub fn line_start(text: &Vec<u8>, pos: usize) -> (r: usize)
    ensures
        r as int == spec_line_start(text@, clamp_pos(pos as int, text@.len() as int)),
        r <= pos,
        r <= text@.len(),
{
    let len = text.len();
    let clamped: usize = if pos <= len {
        pos
    } else {
        len
    };
    let mut i: usize = clamped;
    while i > 0
        invariant
            i <= clamped <= text@.len(),
            spec_line_start(text@, clamped as int) == spec_line_start(text@, i as int),
        decreases i,
    {
        if text[i - 1] == 10 {
            return i;
        }
        i -= 1;
    }
    0
}

/// The end of the line containing `pos` (clamped to the text).
#[verifier::loop_isolation(false)]
pub fn line_end(text: &Vec<u8>, pos: usize) -> (r: usize)
    ensures
        r as int == spec_line_end(text@, clamp_pos(pos as int, text@.len() as int)),
        r <= text@.len(),
        clamp_pos(pos as int, text@.len() as int) <= r as int,
{
    let len = text.len();
    let clamped: usize = if pos <= len {
        pos
    } else {
        len
    };
    let mut i: usize = clamped;
    while i < len
        invariant
            clamped <= i <= len,
            len == text@.len(),
            spec_line_end(text@, clamped as int) == spec_line_end(text@, i as int),
        decreases len - i,
    {
        if text[i] == 10 {
            proof {
                lemma_line_end_bounds(text@, clamped as int);
            }
            return i;
        }
        i += 1;
    }
    proof {
        lemma_line_end_bounds(text@, clamped as int);
    }
    len
}

/// How many consecutive whitespace bytes start at `i`.
pub open spec fn spec_ws_run(s: Seq<u8>, i: int) -> int
    decreases s.len() - i,
{
    if i < 0 || i >= s.len() || !is_ws(s[i]) {
        0
    } else {
        1 + spec_ws_run(s, i + 1)
    }
}

pub proof fn lemma_ws_run_bounds(s: Seq<u8>, i: int)
    requires
        0 <= i <= s.len(),
    ensures
        0 <= spec_ws_run(s, i),
        i + spec_ws_run(s, i) <= s.len(),
        forall|k: int| i <= k < i + spec_ws_run(s, i) ==> is_ws(s[k]),
        i + spec_ws_run(s, i) < s.len() ==> !is_ws(s[i + spec_ws_run(s, i)]),
    decreases s.len() - i,
{
    if i < s.len() && is_ws(s[i]) {
        lemma_ws_run_bounds(s, i + 1);
    }
}

/// The length of the whitespace run starting at `from`.
#[verifier::loop_isolation(false)]
pub fn ws_run(s: &Vec<u8>, from: usize) -> (r: usize)
    requires
        from <= s@.len(),
    ensures
        r as int == spec_ws_run(s@, from as int),
        from + r <= s@.len(),
{
    let mut i: usize = from;
    while i < s.len() && byte_is_ws(s[i])
        invariant
            from <= i <= s@.len(),
            spec_ws_run(s@, from as int) == i - from + spec_ws_run(s@, i as int),
        decreases s@.len() - i,
    {
        i += 1;
    }
    i - from
}

/// How many consecutive decimal digits start at `i`.
pub open spec fn spec_digit_run(s: Seq<u8>, i: int) -> int
    decreases s.len() - i,
{
    if i < 0 || i >= s.len() || !is_digit(s[i]) {
        0
    } else {
        1 + spec_digit_run(s, i + 1)
    }
}

pub proof fn lemma_digit_run_bounds(s: Seq<u8>, i: int)
    requires
        0 <= i <= s.len(),
    ensures
        0 <= spec_digit_run(s, i),
        i + spec_digit_run(s, i) <= s.len(),
        forall|k: int| i <= k < i + spec_digit_run(s, i) ==> is_digit(s[k]),
        i + spec_digit_run(s, i) < s.len() ==> !is_digit(s[i + spec_digit_run(s, i)]),
    decreases s.len() - i,
{
    if i < s.len() && is_digit(s[i]) {
        lemma_digit_run_bounds(s, i + 1);
    }
}

/// The length of the digit run starting at `from`.
#[verifier::loop_isolation(false)]
pub fn digit_run(s: &Vec<u8>, from: usize) -> (r: usize)
    requires
        from <= s@.len(),
    ensures
        r as int == spec_digit_run(s@, from as int),
        from + r <= s@.len(),
{
    let mut i: usize = from;
    while i < s.len() && byte_is_digit(s[i])
        invariant
            from <= i <= s@.len(),
            spec_digit_run(s@, from as int) == i - from + spec_digit_run(s@, i as int),
        decreases s@.len() - i,
    {
        i += 1;
    }
    i - from
}

/// True iff every byte from `from` to the end is whitespace.
pub open spec fn spec_all_ws(s: Seq<u8>, from: int) -> bool {
    forall|k: int| from <= k < s.len() ==> is_ws(#[trigger] s[k])
}

/// Whether the rest of the buffer from `from` on is blank.
#[verifier::loop_isolation(false)]
pub fn all_ws_from(s: &Vec<u8>, from: usize) -> (r: bool)
    requires
        from <= s@.len(),
    ensures
        r == spec_all_ws(s@, from as int),
{
    let mut i: usize = from;
    while i < s.len()
        invariant
            from <= i <= s@.len(),
            forall|k: int| from <= k < i ==> is_ws(#[trigger] s@[k]),
        decreases s@.len() - i,
    {
        if !byte_is_ws(s[i]) {
            return false;
        }
        i += 1;
    }
    true
}

/// The first position at or after `i` holding byte `b`, or the length.
pub open spec fn spec_find_byte(s: Seq<u8>, b: u8, i: int) -> int
    decreases s.len() - i,
{
    if i < 0 || i >= s.len() {
        s.len() as int
    } else if s[i] == b {
        i
    } else {
        spec_find_byte(s, b, i + 1)
    }
}

pub proof fn lemma_find_byte_bounds(s: Seq<u8>, b: u8, i: int)
    requires
        0 <= i <= s.len(),
    ensures
        i <= spec_find_byte(s, b, i) <= s.len(),
        forall|k: int| i <= k < spec_find_byte(s, b, i) ==> s[k] != b,
        spec_find_byte(s, b, i) < s.len() ==> s[spec_find_byte(s, b, i)] == b,
    decreases s.len() - i,
{
    if i < s.len() && s[i] != b {
        lemma_find_byte_bounds(s, b, i + 1);
    }
}

/// The first position at or after `from` holding byte `b`, or the
/// length.
#[verifier::loop_isolation(false)]
pub fn find_byte(s: &Vec<u8>, b: u8, from: usize) -> (r: usize)
    requires
        from <= s@.len(),
    ensures
        r as int == spec_find_byte(s@, b, from as int),
        from <= r <= s@.len(),
{
    let mut i: usize = from;
    while i < s.len()
        invariant
            from <= i <= s@.len(),
            spec_find_byte(s@, b, from as int) == spec_find_byte(s@, b, i as int),
        decreases s@.len() - i,
    {
        if s[i] == b {
            proof {
                lemma_find_byte_bounds(s@, b, from as int);
            }
            return i;
        }
        i += 1;
    }
    proof {
        lemma_find_byte_bounds(s@, b, from as int);
    }
    s.len()
}

/// How many consecutive occurrences of byte `b` start at `i`.
pub open spec fn spec_run_of(s: Seq<u8>, b: u8, i: int) -> int
    decreases s.len() - i,
{
    if i < 0 || i >= s.len() || s[i] != b {
        0
    } else {
        1 + spec_run_of(s, b, i + 1)
    }
}

pub proof fn lemma_run_of_bounds(s: Seq<u8>, b: u8, i: int)
    requires
        0 <= i <= s.len(),
    ensures
        0 <= spec_run_of(s, b, i),
        i + spec_run_of(s, b, i) <= s.len(),
    decreases s.len() - i,
{
    if i < s.len() && s[i] == b {
        lemma_run_of_bounds(s, b, i + 1);
    }
}

/// The length of the run of byte `b` starting at `from`.
#[verifier::loop_isolation(false)]
pub fn run_of(s: &Vec<u8>, b: u8, from: usize) -> (r: usize)
    requires
        from <= s@.len(),
    ensures
        r as int == spec_run_of(s@, b, from as int),
        from + r <= s@.len(),
    decreases s@.len() - from,
{
    let mut i: usize = from;
    while i < s.len() && s[i] == b
        invariant
            from <= i <= s@.len(),
            spec_run_of(s@, b, from as int) == i - from + spec_run_of(s@, b, i as int),
        decreases s@.len() - i,
    {
        i += 1;
    }
    i - from
}

/// The position after which only byte `b` occurs up to `hi`: the start
/// of the trailing run of `b` ending at `hi`.
pub open spec fn spec_run_back(s: Seq<u8>, b: u8, hi: int) -> int
    decreases hi,
{
    if hi <= 0 || hi > s.len() || s[hi - 1] != b {
        hi
    } else {
        spec_run_back(s, b, hi - 1)
    }
}

pub proof fn lemma_run_back_bounds(s: Seq<u8>, b: u8, hi: int)
    requires
        0 <= hi <= s.len(),
    ensures
        0 <= spec_run_back(s, b, hi) <= hi,
        forall|k: int| spec_run_back(s, b, hi) <= k < hi ==> s[k] == b,
        spec_run_back(s, b, hi) > 0 ==> s[spec_run_back(s, b, hi) - 1] != b,
    decreases hi,
{
    if hi > 0 && s[hi - 1] == b {
        lemma_run_back_bounds(s, b, hi - 1);
    }
}

/// The start of the trailing run of byte `b` ending at `hi`.
#[verifier::loop_isolation(false)]
pub fn run_back(s: &Vec<u8>, b: u8, hi: usize) -> (r: usize)
    requires
        hi <= s@.len(),
    ensures
        r as int == spec_run_back(s@, b, hi as int),
        r <= hi,
{
    let mut i: usize = hi;
    while i > 0 && s[i - 1] == b
        invariant
            i <= hi,
            spec_run_back(s@, b, hi as int) == spec_run_back(s@, b, i as int),
        decreases i,
    {
        i -= 1;
    }
    i
}

/// The start of the trailing whitespace run ending at `hi`.
pub open spec fn spec_ws_run_back(s: Seq<u8>, hi: int) -> int
    decreases hi,
{
    if hi <= 0 || hi > s.len() || !is_ws(s[hi - 1]) {
        hi
    } else {
        spec_ws_run_back(s, hi - 1)
    }
}

pub proof fn lemma_ws_run_back_bounds(s: Seq<u8>, hi: int)
    requires
        0 <= hi <= s.len(),
    ensures
        0 <= spec_ws_run_back(s, hi) <= hi,
    decreases hi,
{
    if hi > 0 && is_ws(s[hi - 1]) {
        lemma_ws_run_back_bounds(s, hi - 1);
    }
}

/// The start of the trailing whitespace run ending at `hi`.
#[verifier::loop_isolation(false)]
pub fn ws_run_back(s: &Vec<u8>, hi: usize) -> (r: usize)
    requires
        hi <= s@.len(),
    ensures
        r as int == spec_ws_run_back(s@, hi as int),
        r <= hi,
{
    let mut i: usize = hi;
    while i > 0 && byte_is_ws(s[i - 1])
        invariant
            i <= hi,
            spec_ws_run_back(s@, hi as int) == spec_ws_run_back(s@, i as int),
        decreases i,
    {
        i -= 1;
    }
    i
}

/// ASCII lowercasing of one byte; bytes outside `A..Z` pass through, so
/// multi-byte characters are untouched.
pub open spec fn spec_lower(b: u8) -> u8 {
    if 65 <= b <= 90 {
        (b + 32) as u8
    } else {
        b
    }
}

/// ASCII lowercasing of a byte string.
pub open spec fn spec_lower_seq(s: Seq<u8>) -> Seq<u8> {
    s.map_values(|b: u8| spec_lower(b))
}

/// The ASCII-lowercased copy of a buffer.
#[verifier::loop_isolation(false)]
pub fn lower_bytes(s: &Vec<u8>) -> (r: Vec<u8>)
    ensures
        r@ == spec_lower_seq(s@),
{
    let mut out: Vec<u8> = Vec::new();
    let mut i: usize = 0;
    while i < s.len()
        invariant
            i <= s@.len(),
            out@.len() == i,
            forall|k: int| 0 <= k < i ==> out@[k] == spec_lower(s@[k]),
        decreases s@.len() - i,
    {
        let b = s[i];
        if 65 <= b && b <= 90 {
            out.push(b + 32);
        } else {
            out.push(b);
        }
        i += 1;
    }
    proof {
        assert(out@ =~= spec_lower_seq(s@));
    }
    out
}

/// Appends a byte slice to `out`.
#[verifier::loop_isolation(false)]
pub fn push_slice(out: &mut Vec<u8>, s: &[u8])
    ensures
        final(out)@ == old(out)@ + s@,
{
    let mut i: usize = 0;
    while i < s.len()
        invariant
            i <= s@.len(),
            out@ == old(out)@ + s@.subrange(0, i as int),
        decreases s@.len() - i,
    {
        let b = s[i];
        out.push(b);
        i += 1;
        proof {
            assert(old(out)@ + s@.subrange(0, i as int) =~= out@);
        }
    }
    proof {
        assert(old(out)@ + s@.subrange(0, s@.len() as int) =~= old(out)@ + s@);
    }
}

/// Appends the bytes of a literal to `out`.
pub fn push_str_bytes(out: &mut Vec<u8>, s: &str)
    ensures
        final(out)@ == old(out)@ + s.spec_bytes(),
{
    push_slice(out, s.as_bytes());
}

/// Whether the buffer holds exactly the bytes of the literal.
#[verifier::loop_isolation(false)]
pub fn bytes_eq_str(a: &Vec<u8>, s: &str) -> (r: bool)
    ensures
        r == (a@ == s.spec_bytes()),
{
    let b = s.as_bytes();
    if a.len() != b.len() {
        return false;
    }
    let mut i: usize = 0;
    while i < a.len()
        invariant
            a@.len() == b@.len(),
            i <= a@.len(),
            forall|k: int| 0 <= k < i ==> a@[k] == b@[k],
        decreases a@.len() - i,
    {
        if a[i] != b[i] {
            return false;
        }
        i += 1;
    }
    proof {
        assert(a@ =~= b@);
    }
    true
}

/// The numeric value of a digit string, read left to right.
pub open spec fn spec_digits_val(s: Seq<u8>) -> int
    decreases s.len(),
{
    if s.len() == 0 {
        0
    } else {
        spec_digits_val(s.drop_last()) * 10 + (s.last() - 48)
    }
}

proof fn lemma_digits_val_extend_nonneg(s: Seq<u8>)
    requires
        forall|k: int| 0 <= k < s.len() ==> is_digit(#[trigger] s[k]),
    ensures
        spec_digits_val(s) >= 0,
    decreases s.len(),
{
    if s.len() > 0 {
        assert(forall|k: int| 0 <= k < s.drop_last().len() ==> is_digit(#[trigger] s.drop_last()[k]));
        lemma_digits_val_extend_nonneg(s.drop_last());
    }
}

/// Parses the digit run `s[from..to)` as a list marker: its numeric
/// value if that fits a machine counter, else the fallback 1.
#[verifier::loop_isolation(false)]
pub fn parse_digits_capped(s: &Vec<u8>, from: usize, to: usize) -> (r: u64)
    requires
        from <= to <= s@.len(),
        forall|k: int| from <= k < to ==> is_digit(#[trigger] s@[k]),
    ensures
        r as int == ({
            let v = spec_digits_val(s@.subrange(from as int, to as int));
            if v <= u64::MAX {
                v
            } else {
                1int
            }
        }),
{
    let ghost digits = s@.subrange(from as int, to as int);
    proof {
        assert(forall|k: int| 0 <= k < digits.len() ==> is_digit(#[trigger] digits[k]));
    }
    let mut acc: u64 = 0;
    let mut i: usize = from;
    let mut overflowed = false;
    while i < to
        invariant
            from <= i <= to <= s@.len(),
            digits == s@.subrange(from as int, to as int),
            forall|k: int| from <= k < to ==> is_digit(#[trigger] s@[k]),
            !overflowed ==> acc as int == spec_digits_val(s@.subrange(from as int, i as int)),
            overflowed ==> spec_digits_val(s@.subrange(from as int, i as int)) > u64::MAX,
        decreases to - i,
    {
        let d = s[i];
        proof {
            assert(is_digit(s@[i as int]));
            let pre = s@.subrange(from as int, i as int);
            let cur = s@.subrange(from as int, i + 1);
            assert(cur.drop_last() =~= pre);
            assert(cur.last() == s@[i as int]);
            lemma_digits_val_extend_nonneg(pre);
        }
        if !overflowed {
            if acc > (u64::MAX - (d - 48) as u64) / 10 {
                overflowed = true;
                proof {
                    let pre = s@.subrange(from as int, i as int);
                    let cur = s@.subrange(from as int, i + 1);
                    assert(spec_digits_val(cur) == spec_digits_val(pre) * 10 + (s@[i as int] - 48));
                }
            } else {
                acc = acc * 10 + (d - 48) as u64;
            }
        } else {
            proof {
                let pre = s@.subrange(from as int, i as int);
                let cur = s@.subrange(from as int, i + 1);
                assert(spec_digits_val(cur) == spec_digits_val(pre) * 10 + (s@[i as int] - 48));
            }
        }
        i += 1;
    }
    proof {
        assert(s@.subrange(from as int, to as int) =~= digits);
    }
    if overflowed {
        1
    } else {
        acc
    }
}

/// The decimal digits of `n`, most significant first, empty for zero.
pub open spec fn spec_dec_digits(n: int) -> Seq<u8>
    decreases n,
{
    if n <= 0 {
        Seq::empty()
    } else {
        spec_dec_digits(n / 10).push((48 + n % 10) as u8)
    }
}

/// The decimal rendering of `n`, with `0` spelt out.
pub open spec fn spec_u64_dec(n: int) -> Seq<u8> {
    if n == 0 {
        seq![48u8]
    } else {
        spec_dec_digits(n)
    }
}

fn push_dec_digits(out: &mut Vec<u8>, n: u64)
    ensures
        final(out)@ == old(out)@ + spec_dec_digits(n as int),
    decreases n,
{
    if n == 0 {
        proof {
            assert(old(out)@ + spec_dec_digits(0) =~= old(out)@);
        }
    } else {
        push_dec_digits(out, n / 10);
        out.push(48 + (n % 10) as u8);
        proof {
            assert(old(out)@ + spec_dec_digits(n as int) =~= out@);
        }
    }
}

/// Appends the decimal rendering of `n` to `out`.
pub fn push_u64_dec(out: &mut Vec<u8>, n: u64)
    ensures
        final(out)@ == old(out)@ + spec_u64_dec(n as int),
{
    if n == 0 {
        out.push(48);
        proof {
            assert(old(out)@ + spec_u64_dec(0) =~= out@);
        }
    } else {
        push_dec_digits(out, n);
    }
}

} // verus!
