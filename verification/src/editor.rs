//! Text transaction engine: the authoritative `(text, selection, revision)`
//! state of one open note, and atomic application of validated multi-span
//! edits with selection remapping.
//!
//! Text is a byte buffer; `Selection` and `TextChange` carry byte offsets
//! into it. A `Transaction` bundles an unordered set of changes: the engine
//! sorts them by `(start, end)`, validates bounds and pairwise disjointness,
//! applies them all against the original text, and remaps or replaces the
//! selection. On any validation error the snapshot is left untouched.

use vstd::prelude::*;

verus! {

/// A byte range into the current text. Values built through the
/// constructors are normalized so that `start <= end`.
#[derive(Clone, Copy, Debug, Default, PartialEq, Eq, Structural)]
pub struct Selection {
    pub start: usize,
    pub end: usize,
}

impl Selection {
    /// Builds a selection from two endpoints in either order, normalizing
    /// so that `start <= end`.
    pub fn new(start: usize, end: usize) -> (r: Selection)
        ensures
            r.start == if start <= end { start } else { end },
            r.end == if start <= end { end } else { start },
            r.normalized(),
    {
        if start <= end {
            Selection { start, end }
        } else {
            Selection { start: end, end: start }
        }
    }

    /// A collapsed selection (caret) at `pos`.
    pub fn cursor(pos: usize) -> (r: Selection)
        ensures
            r.start == pos,
            r.end == pos,
            r.normalized(),
    {
        Selection { start: pos, end: pos }
    }

    /// True iff the selection is collapsed to a caret.
    pub fn is_cursor(self) -> (r: bool)
        ensures
            r == (self.start == self.end),
    {
        self.start == self.end
    }

    /// Bounds both endpoints to `[0, len]`, normalizing their order.
    pub fn clamp(self, len: usize) -> (r: Selection)
        ensures
            r == self.spec_clamp(len as int),
            r.normalized(),
            r.end <= len,
    {
        let s: usize = if self.start <= len { self.start } else { len };
        let e: usize = if self.end <= len { self.end } else { len };
        Selection::new(s, e)
    }

    /// What `clamp` returns: both endpoints bounded to `[0, len]` and put
    /// in order.
    pub open spec fn spec_clamp(self, len: int) -> Selection {
        let s = if self.start <= len { self.start as int } else { len };
        let e = if self.end <= len { self.end as int } else { len };
        if s <= e {
            Selection { start: s as usize, end: e as usize }
        } else {
            Selection { start: e as usize, end: s as usize }
        }
    }

    /// The order invariant of a well-formed selection.
    pub open spec fn normalized(self) -> bool {
        self.start <= self.end
    }
}

/// Replace the byte range `[start, end)` of the text with `insert`.
#[derive(Clone, Debug, PartialEq, Eq)]
pub struct TextChange {
    pub start: usize,
    pub end: usize,
    pub insert: Vec<u8>,
}

impl TextChange {
    /// A single replacement of `[start, end)` by `insert`.
    pub fn new(start: usize, end: usize, insert: Vec<u8>) -> (r: TextChange)
        ensures
            r.start == start,
            r.end == end,
            r.insert@ == insert@,
    {
        TextChange { start, end, insert }
    }
}

/// Who initiated a transaction; carried for diagnostics only.
#[derive(Clone, Copy, Debug, PartialEq, Eq, Structural, Default)]
pub enum ChangeOrigin {
    Input,
    Command,
    Plugin,
    #[default]
    System,
}

/// An atomic set of text changes plus the selection to apply afterward.
/// The changes may be given in any order; the engine sorts them.
#[derive(Clone, Debug, PartialEq, Eq)]
pub struct Transaction {
    pub changes: Vec<TextChange>,
    pub selection_after: Option<Selection>,
    pub origin: ChangeOrigin,
    pub label: &'static str,
}

impl Transaction {
    /// A transaction of one change.
    pub fn single(
        change: TextChange,
        selection_after: Option<Selection>,
        origin: ChangeOrigin,
        label: &'static str,
    ) -> (r: Transaction)
        ensures
            r.changes@.len() == 1,
            r.changes@[0] == change,
            r.selection_after == selection_after,
            r.origin == origin,
            r.label == label,
    {
        let mut changes: Vec<TextChange> = Vec::new();
        changes.push(change);
        Transaction { changes, selection_after, origin, label }
    }
}

/// What a successful application reports back to the host.
#[derive(Clone, Copy, Debug, PartialEq, Eq, Structural)]
pub struct ApplyOutcome {
    pub text_changed: bool,
    pub selection_changed: bool,
    pub revision: u64,
}

/// A caller-constructed transaction was inconsistent; the snapshot is
/// left unchanged in either case.
#[derive(Clone, Copy, Debug, PartialEq, Eq, Structural)]
pub enum CoreError {
    InvalidRange { start: usize, end: usize, len: usize },
    OverlappingChanges { first_start: usize, first_end: usize, next_start: usize, next_end: usize },
}

/// The authoritative state of one open note.
#[derive(Clone, Debug, PartialEq, Eq)]
pub struct EditorSnapshot {
    pub text: Vec<u8>,
    pub selection: Selection,
    pub revision: u64,
}

// ---------------------------------------------------------------------------
// Specification of change normalization and application.
// ---------------------------------------------------------------------------

/// A change whose range lies within a text of length `len`.
pub open spec fn valid_change(c: TextChange, len: int) -> bool {
    c.start <= c.end && c.end <= len
}

/// Every change is within bounds.
pub open spec fn changes_valid(cs: Seq<TextChange>, len: int) -> bool {
    forall|i: int| 0 <= i < cs.len() ==> valid_change(#[trigger] cs[i], len)
}

/// Every change has an ordered range, independent of any text length.
pub open spec fn changes_ordered(cs: Seq<TextChange>) -> bool {
    forall|i: int| 0 <= i < cs.len() ==> (#[trigger] cs[i]).start <= cs[i].end
}

/// Adjacent changes do not intersect: each ends at or before the next
/// begins.
pub open spec fn changes_separated(cs: Seq<TextChange>) -> bool {
    forall|i: int| 0 <= i && i + 1 < cs.len() ==> (#[trigger] cs[i]).end <= cs[i + 1].start
}

/// Sort key order: by `start`, then by `end`.
pub open spec fn change_le(a: TextChange, b: TextChange) -> bool {
    a.start < b.start || (a.start == b.start && a.end <= b.end)
}

/// Stable insertion of `c` into `s`: after every element that compares
/// less than or equal, so ties keep their original order.
pub open spec fn spec_insert_sorted(s: Seq<TextChange>, c: TextChange) -> Seq<TextChange>
    decreases s.len(),
{
    if s.len() == 0 {
        seq![c]
    } else if change_le(s.last(), c) {
        s.push(c)
    } else {
        spec_insert_sorted(s.drop_last(), c).push(s.last())
    }
}

/// Stable sort of the changes by `(start, end)`.
pub open spec fn spec_sort_changes(s: Seq<TextChange>) -> Seq<TextChange>
    decreases s.len(),
{
    if s.len() == 0 {
        Seq::empty()
    } else {
        spec_insert_sorted(spec_sort_changes(s.drop_last()), s.last())
    }
}

/// The text after applying the changes from index `i` on, with `cursor`
/// marking how far the original text has been consumed: the untouched
/// span up to each change, then its insertion, concatenated in order,
/// with the tail of the original text at the end.
pub open spec fn spec_apply_from(text: Seq<u8>, cs: Seq<TextChange>, i: int, cursor: int) -> Seq<u8>
    decreases cs.len() - i,
{
    if i < 0 || i >= cs.len() {
        text.subrange(cursor, text.len() as int)
    } else {
        text.subrange(cursor, cs[i].start as int) + cs[i].insert@ + spec_apply_from(
            text,
            cs,
            i + 1,
            cs[i].end as int,
        )
    }
}

/// The text after applying all changes, left to right, against the
/// original text: the concatenation of the untouched spans with the
/// inserted text, in sorted order.
pub open spec fn spec_apply_changes(text: Seq<u8>, cs: Seq<TextChange>) -> Seq<u8> {
    spec_apply_from(text, cs, 0, 0)
}

/// Saturation of a mapped position at the largest machine offset.
pub open spec fn pos_sat(x: int) -> int {
    if x > usize::MAX {
        usize::MAX as int
    } else {
        x
    }
}

/// How one change moves a position: a position before the change's start
/// is unaffected; one within `[start, end]` collapses to the end of the
/// inserted text; one after `end` shifts by the size difference.
pub open spec fn spec_map_one(pos: int, c: TextChange) -> int {
    let ins = c.insert@.len() as int;
    let rem = c.end - c.start;
    if pos < c.start {
        pos
    } else if pos <= c.end {
        pos_sat(c.start + ins)
    } else {
        pos_sat(pos + ins - rem)
    }
}

/// A position remapped through the changes from index `i` on.
pub open spec fn spec_map_pos(pos: int, cs: Seq<TextChange>, i: int) -> int
    decreases cs.len() - i,
{
    if i < 0 || i >= cs.len() {
        pos
    } else {
        spec_map_pos(spec_map_one(pos, cs[i]), cs, i + 1)
    }
}

/// A position remapped through all changes in order.
pub open spec fn spec_map_position(pos: int, cs: Seq<TextChange>) -> int {
    spec_map_pos(pos, cs, 0)
}

/// The selection the snapshot holds after a successful application:
/// the transaction's own, if any, else the prior selection remapped
/// endpoint by endpoint; clamped to the new text in either case.
pub open spec fn spec_selection_after(
    prior: Selection,
    selection_after: Option<Selection>,
    cs: Seq<TextChange>,
    new_len: int,
) -> Selection {
    match selection_after {
        Some(sel) => sel.spec_clamp(new_len),
        None => {
            let s = spec_map_position(prior.start as int, cs);
            let e = spec_map_position(prior.end as int, cs);
            let lo = if s <= e {
                s
            } else {
                e
            };
            let hi = if s <= e {
                e
            } else {
                s
            };
            Selection { start: lo as usize, end: hi as usize }.spec_clamp(new_len)
        },
    }
}

// ---------------------------------------------------------------------------
// Laws of the position remap.
// ---------------------------------------------------------------------------

/// A remapped position is never negative and never exceeds the largest
/// machine offset.
pub proof fn lemma_map_position_bounds(pos: int, cs: Seq<TextChange>, i: int)
    requires
        0 <= pos <= usize::MAX,
    ensures
        0 <= spec_map_pos(pos, cs, i) <= usize::MAX,
    decreases cs.len() - i,
{
    if 0 <= i < cs.len() {
        lemma_map_position_bounds(spec_map_one(pos, cs[i]), cs, i + 1);
    }
}

proof fn lemma_map_one_monotone(p: int, q: int, c: TextChange)
    requires
        c.start <= c.end,
        0 <= p <= q,
    ensures
        spec_map_one(p, c) <= spec_map_one(q, c),
{
}

proof fn lemma_map_pos_monotone(p: int, q: int, cs: Seq<TextChange>, i: int)
    requires
        changes_ordered(cs),
        0 <= p <= q,
    ensures
        spec_map_pos(p, cs, i) <= spec_map_pos(q, cs, i),
    decreases cs.len() - i,
{
    if 0 <= i < cs.len() {
        lemma_map_one_monotone(p, q, cs[i]);
        lemma_map_pos_monotone(spec_map_one(p, cs[i]), spec_map_one(q, cs[i]), cs, i + 1);
    }
}

/// Monotonic remap law: remapping through a transaction's changes
/// preserves the order of positions, so the two endpoints of a selection
/// never cross.
pub proof fn lemma_map_position_monotone(p: int, q: int, cs: Seq<TextChange>)
    requires
        changes_ordered(cs),
        0 <= p <= q,
    ensures
        spec_map_position(p, cs) <= spec_map_position(q, cs),
{
    lemma_map_pos_monotone(p, q, cs, 0);
}

/// Applying a transaction without an explicit selection twice: as long as
/// the remapped endpoints stay within the respective new texts, the
/// engine's second application, which starts from the already-remapped
/// selection, lands exactly on the composition of the two remaps of the
/// original endpoints — the intermediate clamp and renormalization move
/// nothing.
pub proof fn lemma_selection_remap_twice(s0: Selection, cs: Seq<TextChange>, len1: int, len2: int)
    requires
        s0.normalized(),
        s0.end <= usize::MAX,
        changes_ordered(cs),
        spec_map_position(s0.end as int, cs) <= len1,
        spec_map_position(spec_map_position(s0.end as int, cs), cs) <= len2,
    ensures
        ({
            let s1 = spec_selection_after(s0, None, cs, len1);
            let s2 = spec_selection_after(s1, None, cs, len2);
            &&& s1.start == spec_map_position(s0.start as int, cs)
            &&& s1.end == spec_map_position(s0.end as int, cs)
            &&& s2.start == spec_map_position(spec_map_position(s0.start as int, cs), cs)
            &&& s2.end == spec_map_position(spec_map_position(s0.end as int, cs), cs)
        }),
{
    let m_start = spec_map_position(s0.start as int, cs);
    let m_end = spec_map_position(s0.end as int, cs);
    lemma_map_position_bounds(s0.start as int, cs, 0);
    lemma_map_position_bounds(s0.end as int, cs, 0);
    lemma_map_position_monotone(s0.start as int, s0.end as int, cs);
    let s1 = spec_selection_after(s0, None, cs, len1);
    assert(s1.start == m_start && s1.end == m_end);
    lemma_map_position_bounds(m_start, cs, 0);
    lemma_map_position_bounds(m_end, cs, 0);
    lemma_map_position_monotone(m_start, m_end, cs);
}

// ---------------------------------------------------------------------------
// Executable helpers.
// ---------------------------------------------------------------------------

/// Byte-wise equality of two buffers.
pub fn bytes_eq(a: &Vec<u8>, b: &Vec<u8>) -> (r: bool)
    ensures
        r == (a@ == b@),
{
    if a.len() != b.len() {
        return false;
    }
    let mut i: usize = 0;
    while i < a.len()
        invariant
            a@.len() == b@.len(),
            i <= a@.len(),
            forall|k: int| 0 <= k < i ==> a@[k] == b@[k],
        decreases a@.len() - i,
    {
        if a[i] != b[i] {
            return false;
        }
        i += 1;
    }
    proof {
        assert(a@ =~= b@);
    }
    true
}

/// Appends `src[start..end)` to `out`.
pub fn push_range(out: &mut Vec<u8>, src: &Vec<u8>, start: usize, end: usize)
    requires
        start <= end <= src@.len(),
    ensures
        final(out)@ == old(out)@ + src@.subrange(start as int, end as int),
{
    let mut i: usize = start;
    while i < end
        invariant
            start <= i <= end <= src@.len(),
            out@ == old(out)@ + src@.subrange(start as int, i as int),
        decreases end - i,
    {
        let b = src[i];
        out.push(b);
        i += 1;
        proof {
            assert(old(out)@ + src@.subrange(start as int, i as int) =~= out@);
        }
    }
    proof {
        assert(out@ =~= old(out)@ + src@.subrange(start as int, end as int));
    }
}

/// Appends all of `src` to `out`.
pub fn push_bytes(out: &mut Vec<u8>, src: &Vec<u8>)
    ensures
        final(out)@ == old(out)@ + src@,
{
    push_range(out, src, 0, src.len());
    proof {
        assert(src@.subrange(0, src@.len() as int) =~= src@);
    }
}

/// A copy of `src[start..end)`.
pub fn copy_range(src: &Vec<u8>, start: usize, end: usize) -> (r: Vec<u8>)
    requires
        start <= end <= src@.len(),
    ensures
        r@ == src@.subrange(start as int, end as int),
{
    let mut out: Vec<u8> = Vec::new();
    push_range(&mut out, src, start, end);
    proof {
        assert(out@ =~= src@.subrange(start as int, end as int));
    }
    out
}

/// A transaction of one in-bounds change sorts to itself and rebuilds
/// the text as the prefix, the insertion and the suffix.
pub proof fn lemma_apply_single(text: Seq<u8>, c: TextChange)
    requires
        valid_change(c, text.len() as int),
    ensures
        spec_sort_changes(seq![c]) == seq![c],
        changes_valid(seq![c], text.len() as int),
        changes_separated(seq![c]),
        spec_apply_changes(text, seq![c]) == text.subrange(0, c.start as int) + c.insert@
            + text.subrange(c.end as int, text.len() as int),
{
    let s = seq![c];
    assert(s.drop_last() =~= Seq::<TextChange>::empty());
    assert(spec_sort_changes(Seq::<TextChange>::empty()) == Seq::<TextChange>::empty());
    assert(spec_sort_changes(s) == spec_insert_sorted(Seq::<TextChange>::empty(), c));
    assert(spec_insert_sorted(Seq::<TextChange>::empty(), c) =~= s);
    assert(forall|i: int| 0 <= i < s.len() ==> s[i] == c);
    assert(spec_apply_from(text, s, 1, c.end as int) == text.subrange(
        c.end as int,
        text.len() as int,
    ));
    assert(spec_apply_changes(text, s) =~= text.subrange(0, c.start as int) + c.insert@
        + text.subrange(c.end as int, text.len() as int));
}

/// Clamping a normalized in-bounds selection changes nothing.
pub proof fn lemma_clamp_identity(sel: Selection, len: int)
    requires
        sel.normalized(),
        sel.end <= len,
    ensures
        sel.spec_clamp(len) == sel,
{
}

fn change_le_exec(a: &TextChange, b: &TextChange) -> (r: bool)
    ensures
        r == change_le(*a, *b),
{
    a.start < b.start || (a.start == b.start && a.end <= b.end)
}

proof fn lemma_insert_sorted_at(s: Seq<TextChange>, c: TextChange, p: int)
    requires
        0 <= p <= s.len(),
        forall|k: int| p <= k < s.len() ==> !change_le(#[trigger] s[k], c),
        p > 0 ==> change_le(s[p - 1], c),
    ensures
        spec_insert_sorted(s, c) == s.subrange(0, p).push(c) + s.subrange(p, s.len() as int),
    decreases s.len(),
{
    if s.len() == 0 {
        assert(spec_insert_sorted(s, c) =~= s.subrange(0, p).push(c) + s.subrange(
            p,
            s.len() as int,
        ));
    } else if p == s.len() {
        assert(change_le(s.last(), c));
        assert(spec_insert_sorted(s, c) == s.push(c));
        assert(s.subrange(0, p) =~= s);
        assert(s.subrange(p, s.len() as int) =~= Seq::<TextChange>::empty());
        assert(s.push(c) =~= s.subrange(0, p).push(c) + s.subrange(p, s.len() as int));
    } else {
        assert(!change_le(s.last(), c));
        let t = s.drop_last();
        lemma_insert_sorted_at(t, c, p);
        assert(t.subrange(0, p) =~= s.subrange(0, p));
        assert(spec_insert_sorted(s, c) == spec_insert_sorted(t, c).push(s.last()));
        assert(spec_insert_sorted(t, c).push(s.last()) =~= s.subrange(0, p).push(c) + s.subrange(
            p,
            s.len() as int,
        ));
    }
}

fn insert_sorted(out: &mut Vec<TextChange>, c: TextChange)
    ensures
        final(out)@ == spec_insert_sorted(old(out)@, c),
{
    let mut p: usize = out.len();
    while p > 0 && !change_le_exec(&out[p - 1], &c)
        invariant
            p <= out@.len(),
            out@ == old(out)@,
            forall|k: int| p <= k < out@.len() ==> !change_le(#[trigger] out@[k], c),
        decreases p,
    {
        p -= 1;
    }
    proof {
        lemma_insert_sorted_at(out@, c, p as int);
    }
    out.insert(p, c);
    proof {
        assert(final(out)@ =~= old(out)@.subrange(0, p as int).push(c) + old(out)@.subrange(
            p as int,
            old(out)@.len() as int,
        ));
    }
}

fn sort_changes(changes: Vec<TextChange>) -> (r: Vec<TextChange>)
    ensures
        r@ == spec_sort_changes(changes@),
{
    let ghost all = changes@;
    let mut rest = changes;
    let mut out: Vec<TextChange> = Vec::new();
    proof {
        assert(all.subrange(0, 0) =~= Seq::<TextChange>::empty());
        assert(rest@ =~= all.subrange(0, all.len() as int));
    }
    while rest.len() > 0
        invariant
            rest@.len() <= all.len(),
            out@ == spec_sort_changes(all.subrange(0, all.len() - rest@.len())),
            rest@ == all.subrange(all.len() - rest@.len(), all.len() as int),
        decreases rest@.len(),
    {
        let ghost i = all.len() - rest@.len();
        let c = rest.remove(0);
        proof {
            assert(c == all[i]);
            assert(rest@ =~= all.subrange(i + 1, all.len() as int));
        }
        insert_sorted(&mut out, c);
        proof {
            let pre = all.subrange(0, i);
            let cur = all.subrange(0, i + 1);
            assert(cur.drop_last() =~= pre);
            assert(cur.last() == all[i]);
            assert(out@ == spec_insert_sorted(spec_sort_changes(pre), all[i]));
            assert(spec_sort_changes(cur) == spec_insert_sorted(
                spec_sort_changes(cur.drop_last()),
                cur.last(),
            ));
        }
    }
    proof {
        assert(all.subrange(0, all.len() as int) =~= all);
    }
    out
}

/// Sorts the changes and checks bounds and disjointness; reports the
/// first offending change (in sorted order) on failure.
fn normalize_changes(changes: Vec<TextChange>, len: usize) -> (r: Result<
    Vec<TextChange>,
    CoreError,
>)
    ensures
        ({
            let sorted = spec_sort_changes(changes@);
            match r {
                Ok(s) => {
                    &&& s@ == sorted
                    &&& changes_valid(sorted, len as int)
                    &&& changes_separated(sorted)
                },
                Err(CoreError::InvalidRange { start, end, len: elen }) => {
                    &&& elen == len
                    &&& exists|i: int|
                        0 <= i < sorted.len() && (#[trigger] sorted[i]).start == start
                            && sorted[i].end == end && !valid_change(sorted[i], len as int) && (
                        forall|j: int| 0 <= j < i ==> valid_change(#[trigger] sorted[j], len as int))
                },
                Err(CoreError::OverlappingChanges { first_start, first_end, next_start, next_end }) => {
                    &&& changes_valid(sorted, len as int)
                    &&& exists|i: int|
                        0 <= i && i + 1 < sorted.len() && (#[trigger] sorted[i]).start == first_start
                            && sorted[i].end == first_end && sorted[i + 1].start == next_start
                            && sorted[i + 1].end == next_end && sorted[i + 1].start < sorted[i].end
                            && (forall|j: int|
                            0 <= j && j + 1 < i + 1 ==> (#[trigger] sorted[j + 1]).start
                                >= sorted[j].end)
                },
            }
        }),
{
    let sorted = sort_changes(changes);
    let mut i: usize = 0;
    while i < sorted.len()
        invariant
            i <= sorted@.len(),
            sorted@ == spec_sort_changes(changes@),
            forall|j: int| 0 <= j < i ==> valid_change(#[trigger] sorted@[j], len as int),
        decreases sorted@.len() - i,
    {
        let start = sorted[i].start;
        let end = sorted[i].end;
        if start > end || end > len {
            return Err(CoreError::InvalidRange { start, end, len });
        }
        i += 1;
    }
    if sorted.len() > 0 {
        let mut i: usize = 0;
        while i < sorted.len() - 1
            invariant
                sorted@.len() > 0,
                i <= sorted@.len() - 1,
                sorted@ == spec_sort_changes(changes@),
                changes_valid(sorted@, len as int),
                forall|j: int|
                    0 <= j && j + 1 < i + 1 ==> (#[trigger] sorted@[j + 1]).start >= sorted@[j].end,
            decreases sorted@.len() - i,
        {
            let first_start = sorted[i].start;
            let first_end = sorted[i].end;
            let next_start = sorted[i + 1].start;
            let next_end = sorted[i + 1].end;
            if next_start < first_end {
                return Err(
                    CoreError::OverlappingChanges { first_start, first_end, next_start, next_end },
                );
            }
            i += 1;
        }
    }
    Ok(sorted)
}

/// Applies sorted, disjoint, in-bounds changes left to right against the
/// original text, producing exactly one new text value.
fn apply_changes_to_text(text: &Vec<u8>, changes: &Vec<TextChange>) -> (r: Vec<u8>)
    requires
        changes_valid(changes@, text@.len() as int),
        changes_separated(changes@),
    ensures
        r@ == spec_apply_changes(text@, changes@),
{
    let mut out: Vec<u8> = Vec::new();
    let mut cursor: usize = 0;
    let mut i: usize = 0;
    while i < changes.len()
        invariant
            changes_valid(changes@, text@.len() as int),
            changes_separated(changes@),
            i <= changes@.len(),
            cursor <= text@.len(),
            i < changes@.len() ==> cursor <= changes@[i as int].start,
            spec_apply_changes(text@, changes@) == out@ + spec_apply_from(
                text@,
                changes@,
                i as int,
                cursor as int,
            ),
        decreases changes@.len() - i,
    {
        let start = changes[i].start;
        let end = changes[i].end;
        let ghost pre = out@;
        push_range(&mut out, text, cursor, start);
        push_bytes(&mut out, &changes[i].insert);
        proof {
            assert(out@ =~= pre + (text@.subrange(cursor as int, start as int)
                + changes@[i as int].insert@));
            assert(pre + (text@.subrange(cursor as int, start as int) + changes@[i as int].insert@)
                + spec_apply_from(text@, changes@, i + 1, end as int) =~= pre + spec_apply_from(
                text@,
                changes@,
                i as int,
                cursor as int,
            ));
        }
        cursor = end;
        i += 1;
    }
    let ghost pre = out@;
    push_range(&mut out, text, cursor, text.len());
    proof {
        assert(out@ =~= pre + text@.subrange(cursor as int, text@.len() as int));
    }
    out
}

/// Remaps a byte position through every change in order.
fn map_position_through_changes(pos: usize, changes: &Vec<TextChange>) -> (r: usize)
    requires
        changes_ordered(changes@),
    ensures
        r as int == spec_map_position(pos as int, changes@),
{
    let ghost p0 = pos as int;
    let mut pos = pos;
    let mut i: usize = 0;
    while i < changes.len()
        invariant
            changes_ordered(changes@),
            i <= changes@.len(),
            spec_map_position(p0, changes@) == spec_map_pos(pos as int, changes@, i as int),
        decreases changes@.len() - i,
    {
        let start = changes[i].start;
        let end = changes[i].end;
        let ins = changes[i].insert.len();
        if pos < start {
            // Unaffected: the change lies entirely after this position.
        } else if pos <= end {
            pos = start.saturating_add(ins);
        } else {
            let removed = end - start;
            if ins >= removed {
                pos = pos.saturating_add(ins - removed);
            } else {
                pos = pos - (removed - ins);
            }
        }
        i += 1;
    }
    pos
}

impl EditorSnapshot {
    /// A fresh snapshot of `text` with the caret at its end and revision
    /// zero.
    pub fn new(text: Vec<u8>) -> (r: EditorSnapshot)
        ensures
            r.text@ == text@,
            r.selection == (Selection { start: text@.len() as usize, end: text@.len() as usize }),
            r.revision == 0,
    {
        let len = text.len();
        EditorSnapshot { text, selection: Selection::cursor(len), revision: 0 }
    }

    /// Replaces the selection, clamped to the current text.
    pub fn set_selection(&mut self, selection: Selection)
        ensures
            final(self).text@ == old(self).text@,
            final(self).revision == old(self).revision,
            final(self).selection == selection.spec_clamp(old(self).text@.len() as int),
    {
        let len = self.text.len();
        self.selection = selection.clamp(len);
    }

    /// Host-originated full-buffer replacement: the whole buffer becomes
    /// `new_text`, with no per-change validation; the selection is clamped
    /// to the new text and the revision is bumped iff the text differs.
    pub fn replace_from_input(&mut self, new_text: Vec<u8>, selection: Selection) -> (r:
        ApplyOutcome)
        requires
            old(self).revision < u64::MAX,
        ensures
            final(self).text@ == new_text@,
            final(self).selection == selection.spec_clamp(new_text@.len() as int),
            r.text_changed == (old(self).text@ != new_text@),
            r.selection_changed == (old(self).selection != final(self).selection),
            final(self).revision == old(self).revision + if r.text_changed {
                1int
            } else {
                0int
            },
            r.revision == final(self).revision,
    {
        let next_selection = selection.clamp(new_text.len());
        let text_changed = !bytes_eq(&self.text, &new_text);
        let selection_changed = !(self.selection == next_selection);

        self.text = new_text;
        self.selection = next_selection;
        if text_changed {
            self.revision += 1;
        }

        ApplyOutcome { text_changed, selection_changed, revision: self.revision }
    }

    /// Applies a transaction atomically: sorts its changes by
    /// `(start, end)`, rejects out-of-bounds or intersecting changes
    /// without touching the snapshot, and otherwise rebuilds the text as
    /// the untouched spans interleaved with the insertions, remapping or
    /// replacing the selection and bumping the revision iff the text
    /// changed.
    pub fn apply_transaction(&mut self, transaction: Transaction) -> (r: Result<
        ApplyOutcome,
        CoreError,
    >)
        requires
            old(self).revision < u64::MAX,
        ensures
            ({
                let sorted = spec_sort_changes(transaction.changes@);
                let len0 = old(self).text@.len() as int;
                match r {
                    Ok(o) => {
                        &&& changes_valid(sorted, len0)
                        &&& changes_separated(sorted)
                        &&& final(self).text@ == spec_apply_changes(old(self).text@, sorted)
                        &&& final(self).selection == spec_selection_after(
                            old(self).selection,
                            transaction.selection_after,
                            sorted,
                            final(self).text@.len() as int,
                        )
                        &&& o.text_changed == (final(self).text@ != old(self).text@)
                        &&& o.selection_changed == (final(self).selection != old(self).selection)
                        &&& final(self).revision == old(self).revision + if o.text_changed {
                            1int
                        } else {
                            0int
                        }
                        &&& o.revision == final(self).revision
                    },
                    Err(CoreError::InvalidRange { start, end, len: elen }) => {
                        &&& *final(self) == *old(self)
                        &&& elen == old(self).text@.len()
                        &&& exists|i: int|
                            0 <= i < sorted.len() && (#[trigger] sorted[i]).start == start
                                && sorted[i].end == end && !valid_change(sorted[i], len0) && (
                            forall|j: int| 0 <= j < i ==> valid_change(#[trigger] sorted[j], len0))
                    },
                    Err(CoreError::OverlappingChanges {
                        first_start,
                        first_end,
                        next_start,
                        next_end,
                    }) => {
                        &&& *final(self) == *old(self)
                        &&& changes_valid(sorted, len0)
                        &&& exists|i: int|
                            0 <= i && i + 1 < sorted.len()
                                && (#[trigger] sorted[i]).start == first_start
                                && sorted[i].end == first_end
                                && sorted[i + 1].start == next_start
                                && sorted[i + 1].end == next_end
                                && sorted[i + 1].start < sorted[i].end
                                && (forall|j: int|
                                    0 <= j && j + 1 < i + 1 ==> (#[trigger] sorted[j + 1]).start
                                        >= sorted[j].end)
                    },
                }
            }),
    {
        let len = self.text.len();
        let normalized = match normalize_changes(transaction.changes, len) {
            Ok(s) => s,
            Err(e) => {
                return Err(e);
            },
        };
        let next_text = apply_changes_to_text(&self.text, &normalized);

        let next_selection = match transaction.selection_after {
            Some(sel) => sel.clamp(next_text.len()),
            None => {
                let s = map_position_through_changes(self.selection.start, &normalized);
                let e = map_position_through_changes(self.selection.end, &normalized);
                Selection::new(s, e).clamp(next_text.len())
            },
        };

        let text_changed = !bytes_eq(&self.text, &next_text);
        let selection_changed = !(self.selection == next_selection);

        self.text = next_text;
        self.selection = next_selection;
        if text_changed {
            self.revision += 1;
        }

        Ok(ApplyOutcome { text_changed, selection_changed, revision: self.revision })
    }
}

} // verus!
