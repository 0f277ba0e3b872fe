//! Three-way merge of line sequences into classified hunks.
use vstd::prelude::*;
use crate::model::{Hunk, HunkKind, HunkView, hunks_view};
use crate::diff::{lemma_line_diff_sides, line_diff, line_diff_spec, new_texts, old_texts};
use crate::text::{
    char_count, clone_lines, copy_lines, ends_with_char, ends_with_seq, join_seq, lemma_split_join,
    lemma_split_seq_len,
    lemma_split_seq_nonempty, split_seq, split_str,
};


verus! {

/// One operation of an edit script between an old and a new sequence:
/// the old range `old_index..old_index+old_len` becomes the new range
/// `new_index..new_index+new_len`.
#[derive(Debug, Clone, Copy, PartialEq, Eq, Structural)]
pub enum EditOp {
    Equal { old_index: usize, new_index: usize, len: usize },
    Delete { old_index: usize, old_len: usize, new_index: usize },
    Insert { old_index: usize, new_index: usize, new_len: usize },
    Replace { old_index: usize, old_len: usize, new_index: usize, new_len: usize },
}

impl EditOp {
    pub open spec fn old_start(self) -> int {
        match self {
            EditOp::Equal { old_index, .. } => old_index as int,
            EditOp::Delete { old_index, .. } => old_index as int,
            EditOp::Insert { old_index, .. } => old_index as int,
            EditOp::Replace { old_index, .. } => old_index as int,
        }
    }

    pub open spec fn old_end(self) -> int {
        match self {
            EditOp::Equal { old_index, len, .. } => old_index + len,
            EditOp::Delete { old_index, old_len, .. } => old_index + old_len,
            EditOp::Insert { old_index, .. } => old_index as int,
            EditOp::Replace { old_index, old_len, .. } => old_index + old_len,
        }
    }

    pub open spec fn new_start(self) -> int {
        match self {
            EditOp::Equal { new_index, .. } => new_index as int,
            EditOp::Delete { new_index, .. } => new_index as int,
            EditOp::Insert { new_index, .. } => new_index as int,
            EditOp::Replace { new_index, .. } => new_index as int,
        }
    }

    pub open spec fn new_end(self) -> int {
        match self {
            EditOp::Equal { new_index, len, .. } => new_index + len,
            EditOp::Delete { new_index, .. } => new_index as int,
            EditOp::Insert { new_index, new_len, .. } => new_index + new_len,
            EditOp::Replace { new_index, new_len, .. } => new_index + new_len,
        }
    }

    /// Everything but `Equal` changes the old sequence.
    pub open spec fn is_change(self) -> bool {
        !(self is Equal)
    }

    /// Every operation touches at least one element.
    pub open spec fn nonempty(self) -> bool {
        match self {
            EditOp::Equal { len, .. } => len > 0,
            EditOp::Delete { old_len, .. } => old_len > 0,
            EditOp::Insert { new_len, .. } => new_len > 0,
            EditOp::Replace { old_len, new_len, .. } => old_len > 0 && new_len > 0,
        }
    }
}

/// `ops` is an edit script from a sequence of `old_len` elements to one of
/// `new_len` elements: its old ranges, and its new ranges, follow each other
/// from 0 to the end without gap or overlap, and no operation is empty.
pub open spec fn ops_valid(ops: Seq<EditOp>, old_len: int, new_len: int) -> bool {
    &&& ops.len() == 0 ==> old_len == 0 && new_len == 0
    &&& ops.len() > 0 ==> {
        &&& ops[0].old_start() == 0
        &&& ops[0].new_start() == 0
        &&& ops.last().old_end() == old_len
        &&& ops.last().new_end() == new_len
    }
    &&& forall|i: int|
        0 <= i < ops.len() - 1 ==> {
            &&& #[trigger] ops[i].old_end() == ops[i + 1].old_start()
            &&& ops[i].new_end() == ops[i + 1].new_start()
        }
    &&& forall|i: int| 0 <= i < ops.len() ==> #[trigger] ops[i].nonempty()
}

proof fn lemma_ops_prefix(ops: Seq<EditOp>, old_len: int, new_len: int, i: int)
    requires
        ops_valid(ops, old_len, new_len),
        0 <= i < ops.len(),
    ensures
        0 <= ops[i].old_start(),
        0 <= ops[i].new_start(),
        ops[i].old_end() + ops[i].new_end() >= i + 1,
    decreases i,
{
    assert(ops[i].nonempty());
    if i > 0 {
        lemma_ops_prefix(ops, old_len, new_len, i - 1);
        assert(ops[i - 1].old_end() == ops[i].old_start());
        assert(ops[i - 1].new_end() == ops[i].new_start());
    }
}

proof fn lemma_ops_suffix(ops: Seq<EditOp>, old_len: int, new_len: int, i: int)
    requires
        ops_valid(ops, old_len, new_len),
        0 <= i < ops.len(),
    ensures
        ops[i].old_end() <= old_len,
        ops[i].new_end() <= new_len,
    decreases ops.len() - i,
{
    if i < ops.len() - 1 {
        lemma_ops_suffix(ops, old_len, new_len, i + 1);
        assert(ops[i].old_end() == ops[i + 1].old_start());
    }
}

/// Every operation of a valid script lies inside both sequences, and the
/// script has at most as many operations as the two sequences have elements.
pub proof fn lemma_ops_bounds(ops: Seq<EditOp>, old_len: int, new_len: int)
    requires
        ops_valid(ops, old_len, new_len),
    ensures
        forall|i: int|
            0 <= i < ops.len() ==> {
                &&& 0 <= #[trigger] ops[i].old_start() <= ops[i].old_end() <= old_len
                &&& 0 <= ops[i].new_start() <= ops[i].new_end() <= new_len
            },
        ops.len() <= old_len + new_len,
{
    assert forall|i: int| 0 <= i < ops.len() implies {
        &&& 0 <= #[trigger] ops[i].old_start() <= ops[i].old_end() <= old_len
        &&& 0 <= ops[i].new_start() <= ops[i].new_end() <= new_len
    } by {
        lemma_ops_prefix(ops, old_len, new_len, i);
        lemma_ops_suffix(ops, old_len, new_len, i);
    }
    if ops.len() > 0 {
        lemma_ops_prefix(ops, old_len, new_len, ops.len() - 1);
    }
}

/// Under an equal run, the `t`-th old element equals the `t`-th new one.
pub open spec fn run_pair_equal(old: Seq<Seq<char>>, new: Seq<Seq<char>>, op: EditOp, t: int) -> bool {
    old[op.old_start() + t] == new[op.new_start() + t]
}

/// Every equal run of `ops` pairs equal elements of `old` and `new`.
pub open spec fn equal_runs_match(ops: Seq<EditOp>, old: Seq<Seq<char>>, new: Seq<Seq<char>>) -> bool {
    forall|k: int, t: int|
        0 <= k < ops.len() && ops[k] is Equal && 0 <= t < ops[k].old_end() - ops[k].old_start()
            ==> #[trigger] run_pair_equal(old, new, ops[k], t)
}

/// No two consecutive operations of `ops` both change the old sequence.
pub open spec fn changes_apart(ops: Seq<EditOp>) -> bool {
    forall|k: int| 0 <= k < ops.len() - 1 && (#[trigger] ops[k]).is_change() ==> !ops[k + 1].is_change()
}

/// The old ranges touched by the changing operations of `ops`, in order.
pub open spec fn changes_of(ops: Seq<EditOp>) -> Seq<(int, int)>
    decreases ops.len(),
{
    if ops.len() == 0 {
        Seq::empty()
    } else {
        let prev = changes_of(ops.drop_last());
        if ops.last().is_change() {
            prev.push((ops.last().old_start(), ops.last().old_end()))
        } else {
            prev
        }
    }
}

proof fn lemma_changes_of_bounds(ops: Seq<EditOp>, old_len: int)
    requires
        forall|i: int|
            0 <= i < ops.len() ==> 0 <= #[trigger] ops[i].old_start() <= ops[i].old_end()
                <= old_len,
    ensures
        changes_of(ops).len() <= ops.len(),
        forall|j: int|
            0 <= j < changes_of(ops).len() ==> 0 <= (#[trigger] changes_of(ops)[j]).0
                <= changes_of(ops)[j].1 <= old_len,
    decreases ops.len(),
{
    if ops.len() > 0 {
        let p = ops.drop_last();
        assert forall|i: int| 0 <= i < p.len() implies 0 <= #[trigger] p[i].old_start()
            <= p[i].old_end() <= old_len by {
            assert(p[i] == ops[i]);
        }
        lemma_changes_of_bounds(p, old_len);
        assert(ops.last() == ops[ops.len() - 1]);
    }
}

/// Whether two base ranges overlap; two empty ranges overlap when they sit
/// at the same position, an empty range overlaps a non-empty one when it
/// lies strictly inside it.
pub open spec fn overlaps(a0: int, a1: int, b0: int, b1: int) -> bool {
    if a0 == a1 && b0 == b1 {
        a0 == b0
    } else {
        a0 < b1 && b0 < a1
    }
}

/// A base range changed by one side.
#[derive(Clone, Copy)]
struct Change {
    base_start: usize,
    base_end: usize,
}

spec fn change_view(c: Change) -> (int, int) {
    (c.base_start as int, c.base_end as int)
}

spec fn changes_view(cs: Seq<Change>) -> Seq<(int, int)> {
    cs.map_values(|c: Change| change_view(c))
}

fn collect_changes(ops: &[EditOp]) -> (r: Vec<Change>)
    requires
        forall|i: int|
            0 <= i < ops@.len() ==> 0 <= #[trigger] ops@[i].old_start() <= ops@[i].old_end()
                <= usize::MAX,
    ensures
        changes_view(r@) == changes_of(ops@),
{
    let mut out: Vec<Change> = Vec::new();
    let mut i: usize = 0;
    while i < ops.len()
        invariant
            i <= ops@.len(),
            forall|j: int|
                0 <= j < ops@.len() ==> 0 <= #[trigger] ops@[j].old_start() <= ops@[j].old_end()
                    <= usize::MAX,
            changes_view(out@) == changes_of(ops@.take(i as int)),
        decreases ops.len() - i,
    {
        assert(ops@.take(i + 1).drop_last() =~= ops@.take(i as int));
        assert(ops@.take(i + 1).last() == ops@[i as int]);
        let op = ops[i];
        let ghost o = ops@[i as int];
        assert(0 <= o.old_start() <= o.old_end() <= usize::MAX);
        match op {
            EditOp::Equal { .. } => {},
            EditOp::Delete { old_index, old_len, .. } => {
                out.push(Change { base_start: old_index, base_end: old_index + old_len });
            },
            EditOp::Insert { old_index, .. } => {
                out.push(Change { base_start: old_index, base_end: old_index });
            },
            EditOp::Replace { old_index, old_len, .. } => {
                out.push(Change { base_start: old_index, base_end: old_index + old_len });
            },
        }
        assert(changes_view(out@) =~= changes_of(ops@.take(i + 1)));
        i = i + 1;
    }
    assert(ops@.take(ops@.len() as int) =~= ops@);
    out
}

/// Whether the base ranges `a0..a1` and `b0..b1` overlap (see [`overlaps`]).
fn ranges_overlap(a0: usize, a1: usize, b0: usize, b1: usize) -> (r: bool)
    ensures
        r == overlaps(a0 as int, a1 as int, b0 as int, b1 as int),
{
    if a0 == a1 && b0 == b1 {
        return a0 == b0;
    }
    a0 < b1 && b0 < a1
}

/// The kind of a hunk from which sides changed it and what they made of it.
pub open spec fn classify_spec(
    has_left: bool,
    has_right: bool,
    left: Seq<Seq<char>>,
    right: Seq<Seq<char>>,
) -> HunkKind {
    if has_left && !has_right {
        HunkKind::LeftChange
    } else if !has_left && has_right {
        HunkKind::RightChange
    } else if has_left && has_right {
        if left == right {
            HunkKind::BothSame
        } else {
            HunkKind::Conflict
        }
    } else {
        HunkKind::Unchanged
    }
}

fn lines_equal(a: &[String], b: &[String]) -> (r: bool)
    ensures
        r == (a.deep_view() == b.deep_view()),
{
    if a.len() != b.len() {
        assert(a.deep_view().len() != b.deep_view().len());
        return false;
    }
    let mut i: usize = 0;
    while i < a.len()
        invariant
            a.len() == b.len(),
            i <= a.len(),
            forall|j: int| 0 <= j < i ==> a[j]@ == b[j]@,
        decreases a.len() - i,
    {
        if a[i] != b[i] {
            assert(a.deep_view()[i as int] != b.deep_view()[i as int]);
            return false;
        }
        i = i + 1;
    }
    assert(a.deep_view() =~= b.deep_view());
    true
}

fn classify(has_left: bool, has_right: bool, left_lines: &[String], right_lines: &[String]) -> (k:
    HunkKind)
    ensures
        k == classify_spec(has_left, has_right, left_lines.deep_view(), right_lines.deep_view()),
{
    match (has_left, has_right) {
        (true, false) => HunkKind::LeftChange,
        (false, true) => HunkKind::RightChange,
        (true, true) => {
            if lines_equal(left_lines, right_lines) {
                HunkKind::BothSame
            } else {
                HunkKind::Conflict
            }
        },
        (false, false) => HunkKind::Unchanged,
    }
}

/// Whether operation `op` lies wholly before base position `x`: it ends
/// before `x`, or ends at `x` without being an insertion at `x` (with
/// `after`, the insertions at `x` count as before it too).
pub open spec fn before_pos(op: EditOp, x: int, after: bool) -> bool {
    op.old_end() < x || (op.old_end() == x && (op.old_start() < x || after))
}

/// The position in a side's lines that base position `x` maps to under the
/// script `ops`, looking from operation `i` on: before the lines inserted
/// at `x`, or after them with `after`; `n` (the side's length) past the
/// last operation.
pub open spec fn cut_from(ops: Seq<EditOp>, i: int, x: int, after: bool, n: int) -> int
    decreases ops.len() - i,
{
    if i < 0 || i >= ops.len() {
        n
    } else if before_pos(ops[i], x, after) {
        cut_from(ops, i + 1, x, after, n)
    } else if ops[i] is Equal && ops[i].old_start() < x {
        ops[i].new_start() + (x - ops[i].old_start())
    } else {
        ops[i].new_start()
    }
}

/// The position in a side's lines that base position `x` maps to under the
/// script `ops` (see [`cut_from`]).
pub open spec fn cut(ops: Seq<EditOp>, x: int, after: bool, n: int) -> int {
    cut_from(ops, 0, x, after, n)
}

/// A side's lines for the base range `start..end`: for an empty range, the
/// lines the side inserts at its position; otherwise the side's lines
/// between the two ends of the range, without what it inserts at either
/// end.
pub open spec fn side_lines(side: Seq<Seq<char>>, ops: Seq<EditOp>, start: int, end: int) -> Seq<
    Seq<char>,
> {
    let n = side.len() as int;
    let lo = if start == end {
        cut(ops, start, false, n)
    } else {
        cut(ops, start, true, n)
    };
    let hi = if start == end {
        cut(ops, start, true, n)
    } else {
        cut(ops, end, false, n)
    };
    if 0 <= lo <= hi <= n {
        side.subrange(lo, hi)
    } else {
        Seq::empty()
    }
}

/// The first operation from `i` on that does not lie wholly before `x`.
spec fn first_from(ops: Seq<EditOp>, i: int, x: int, after: bool) -> int
    decreases ops.len() - i,
{
    if i < 0 || i >= ops.len() {
        ops.len() as int
    } else if before_pos(ops[i], x, after) {
        first_from(ops, i + 1, x, after)
    } else {
        i
    }
}

/// The position that `x` maps to within operation `i` (or `n` past the end).
spec fn cut_val(ops: Seq<EditOp>, i: int, x: int, n: int) -> int {
    if i < 0 || i >= ops.len() {
        n
    } else if ops[i] is Equal && ops[i].old_start() < x {
        ops[i].new_start() + (x - ops[i].old_start())
    } else {
        ops[i].new_start()
    }
}

proof fn lemma_first_from(ops: Seq<EditOp>, i: int, x: int, after: bool, n: int)
    requires
        0 <= i <= ops.len(),
    ensures
        cut_from(ops, i, x, after, n) == cut_val(ops, first_from(ops, i, x, after), x, n),
        i <= first_from(ops, i, x, after) <= ops.len(),
        forall|j: int| i <= j < first_from(ops, i, x, after) ==> before_pos(#[trigger] ops[j], x, after),
        first_from(ops, i, x, after) < ops.len() ==> !before_pos(ops[first_from(ops, i, x, after)], x, after),
    decreases ops.len() - i,
{
    if i < ops.len() && before_pos(ops[i], x, after) {
        lemma_first_from(ops, i + 1, x, after, n);
    }
}

proof fn lemma_ops_order(ops: Seq<EditOp>, old_len: int, new_len: int, j: int, k: int)
    requires
        ops_valid(ops, old_len, new_len),
        0 <= j < k < ops.len(),
    ensures
        ops[j].old_end() <= ops[k].old_start(),
        ops[j].new_end() <= ops[k].new_start(),
    decreases k - j,
{
    lemma_ops_bounds(ops, old_len, new_len);
    assert(ops[k - 1].old_end() == ops[k].old_start());
    assert(ops[k - 1].new_end() == ops[k].new_start());
    if j < k - 1 {
        lemma_ops_order(ops, old_len, new_len, j, k - 1);
    }
}

/// Everything about the cut positions of a valid script that the panes
/// need: where they lie, their order, and that an insertion-free position
/// has one cut.
proof fn lemma_cut_facts(ops: Seq<EditOp>, bl: int, nl: int, x: int)
    requires
        ops_valid(ops, bl, nl),
        0 <= x <= bl,
    ensures
        0 <= cut(ops, x, false, nl) <= cut(ops, x, true, nl) <= nl,
        (forall|j: int|
            0 <= j < ops.len() ==> !(#[trigger] ops[j].old_start() == x && ops[j].old_end() == x))
            ==> cut(ops, x, false, nl) == cut(ops, x, true, nl),
        x == 0 ==> cut(ops, x, false, nl) == 0,
        x == bl ==> cut(ops, x, true, nl) == nl,
{
    lemma_ops_bounds(ops, bl, nl);
    lemma_first_from(ops, 0, x, false, nl);
    lemma_first_from(ops, 0, x, true, nl);
    let f = first_from(ops, 0, x, false);
    let g = first_from(ops, 0, x, true);
    // f <= g: every op before x (without its insertions) is before x with them.
    if g < f {
        assert(before_pos(ops[g], x, false));
    }
    if f < ops.len() {
        assert(ops[f].nonempty());
        if ops[f] is Equal && ops[f].old_start() < x {
            assert(ops[f].old_end() > x);
        }
    }
    if g < ops.len() {
        assert(ops[g].nonempty());
        if ops[g] is Equal && ops[g].old_start() < x {
            assert(ops[g].old_end() > x);
        }
    }
    if f < g {
        assert(before_pos(ops[f], x, true));
        assert(ops[f].old_start() == x && ops[f].old_end() == x);
        if g < ops.len() {
            lemma_ops_order(ops, bl, nl, f, g);
        } else {
            if f < ops.len() - 1 {
                lemma_ops_order(ops, bl, nl, f, ops.len() - 1);
            }
        }
    }
    if x == 0 && ops.len() > 0 {
        assert(f == 0);
    }
    if x == bl {
        if g < ops.len() {
            assert(ops[g].old_end() <= bl);
            assert(before_pos(ops[g], x, true));
        }
    }
}

/// Cut positions are ordered along the base.
proof fn lemma_cut_order(ops: Seq<EditOp>, bl: int, nl: int, x: int, y: int)
    requires
        ops_valid(ops, bl, nl),
        0 <= x < y <= bl,
    ensures
        cut(ops, x, true, nl) <= cut(ops, y, false, nl),
{
    lemma_ops_bounds(ops, bl, nl);
    lemma_first_from(ops, 0, x, true, nl);
    lemma_first_from(ops, 0, y, false, nl);
    let g = first_from(ops, 0, x, true);
    let f = first_from(ops, 0, y, false);
    if f < g {
        assert(before_pos(ops[f], x, true));
        assert(before_pos(ops[f], y, false));
    }
    if g < f {
        assert(before_pos(ops[g], y, false));
        if ops[g] is Equal && ops[g].old_start() < x {
            assert(ops[g].old_end() > x);
        }
        if f < ops.len() {
            lemma_ops_order(ops, bl, nl, g, f);
        } else if g < ops.len() - 1 {
            lemma_ops_order(ops, bl, nl, g, ops.len() - 1);
        }
    }
}

/// Operations from `a` to `b`, all equal runs, keep the offset between
/// old and new positions.
proof fn lemma_equal_offset(ops: Seq<EditOp>, bl: int, nl: int, a: int, b: int)
    requires
        ops_valid(ops, bl, nl),
        0 <= a <= b < ops.len(),
        forall|m: int| a <= m <= b ==> #[trigger] ops[m] is Equal,
    ensures
        ops[b].new_start() - ops[b].old_start() == ops[a].new_start() - ops[a].old_start(),
    decreases b - a,
{
    if a < b {
        lemma_equal_offset(ops, bl, nl, a, b - 1);
        assert(ops[b - 1] is Equal);
        assert(ops[b - 1].old_end() == ops[b].old_start());
        assert(ops[b - 1].new_end() == ops[b].new_start());
    }
}

/// No change of the script touches the base range `p..q`.
spec fn untouched(ops: Seq<EditOp>, p: int, q: int) -> bool {
    forall|j: int|
        0 <= j < ops.len() && (#[trigger] ops[j]).is_change() ==> !(ops[j].old_start() < q && p
            < ops[j].old_end())
}

proof fn lemma_gap_run(ops: Seq<EditOp>, bl: int, nl: int, p: int, q: int, fp: int, m: int)
    requires
        ops_valid(ops, bl, nl),
        untouched(ops, p, q),
        0 <= fp <= m < ops.len(),
        ops[fp] is Equal,
        ops[fp].old_start() <= p < ops[fp].old_end(),
        ops[m].old_start() < q,
    ensures
        ops[m] is Equal,
        ops[m].new_start() - ops[m].old_start() == ops[fp].new_start() - ops[fp].old_start(),
        ops[m].old_end() > p,
    decreases m - fp,
{
    if m > fp {
        lemma_ops_order(ops, bl, nl, m - 1, m);
        assert(ops[m - 1].old_start() <= ops[m - 1].old_end());
        lemma_ops_bounds(ops, bl, nl);
        lemma_gap_run(ops, bl, nl, p, q, fp, m - 1);
        assert(ops[m - 1].old_end() == ops[m].old_start());
        assert(ops[m - 1].new_end() == ops[m].new_start());
        assert(ops[m].nonempty());
        assert(ops[m].old_end() > p) by {
            lemma_ops_bounds(ops, bl, nl);
        }
        assert(!ops[m].is_change());
    }
}

proof fn lemma_gap_start(ops: Seq<EditOp>, bl: int, nl: int, p: int, q: int) -> (fp: int)
    requires
        ops_valid(ops, bl, nl),
        untouched(ops, p, q),
        0 <= p < q <= bl,
    ensures
        0 <= fp < ops.len(),
        fp == first_from(ops, 0, p, true),
        ops[fp] is Equal,
        ops[fp].old_start() <= p < ops[fp].old_end(),
        cut(ops, p, true, nl) == ops[fp].new_start() - ops[fp].old_start() + p,
{
    lemma_ops_bounds(ops, bl, nl);
    lemma_first_from(ops, 0, p, true, nl);
    let fp = first_from(ops, 0, p, true);
    assert(fp < ops.len()) by {
        if fp == ops.len() {
            assert(ops.len() > 0);
            assert(before_pos(ops[ops.len() - 1], p, true));
        }
    }
    assert(ops[fp].old_start() <= p) by {
        if fp > 0 {
            assert(before_pos(ops[fp - 1], p, true));
            assert(ops[fp - 1].old_end() == ops[fp].old_start());
        }
    }
    assert(ops[fp].old_end() > p);
    assert(!ops[fp].is_change());
    fp
}

/// Over a base range that no change of the script touches, the side's
/// lines between the cuts are the base lines.
#[verifier::spinoff_prover]
#[verifier::rlimit(40)]
proof fn lemma_cut_gap(ops: Seq<EditOp>, base: Seq<Seq<char>>, side: Seq<Seq<char>>, p: int, q: int)
    requires
        ops_valid(ops, base.len() as int, side.len() as int),
        equal_runs_match(ops, base, side),
        0 <= p < q <= base.len(),
        untouched(ops, p, q),
    ensures
        side.subrange(cut(ops, p, true, side.len() as int), cut(ops, q, false, side.len() as int))
            == base.subrange(p, q),
{
    let bl = base.len() as int;
    let nl = side.len() as int;
    lemma_ops_bounds(ops, bl, nl);
    let fp = lemma_gap_start(ops, bl, nl, p, q);
    let off = ops[fp].new_start() - ops[fp].old_start();
    lemma_first_from(ops, 0, q, false, nl);
    let fq = first_from(ops, 0, q, false);
    assert(fq >= fp) by {
        if fq < fp {
            lemma_first_from(ops, 0, p, true, nl);
            assert(!before_pos(ops[fq], q, false));
            assert(before_pos(ops[fq], p, true));
        }
    }
    assert(cut(ops, q, false, nl) == off + q) by {
        if fq < ops.len() {
            if ops[fq].old_start() < q {
                lemma_gap_run(ops, bl, nl, p, q, fp, fq);
                assert(ops[fq].nonempty());
            } else {
                assert(fq > fp);
                assert(before_pos(ops[fq - 1], q, false));
                assert(ops[fq - 1].old_end() == ops[fq].old_start());
                assert(ops[fq - 1].new_end() == ops[fq].new_start());
                lemma_gap_run(ops, bl, nl, p, q, fp, fq - 1);
            }
        } else {
            let last = ops.len() - 1;
            assert(before_pos(ops[last], q, false));
            assert(ops[last].old_end() == bl);
            assert(last >= fp);
            lemma_gap_run(ops, bl, nl, p, q, fp, last);
        }
    }
    assert forall|t: int| 0 <= t < q - p implies side.subrange(off + p, off + q)[t] == base.subrange(p, q)[t] by {
        let y = p + t;
        lemma_first_from(ops, 0, y, true, nl);
        let j = first_from(ops, 0, y, true);
        assert(j < ops.len()) by {
            if j == ops.len() {
                assert(before_pos(ops[ops.len() - 1], y, true));
            }
        }
        assert(ops[j].old_start() <= y) by {
            if j > 0 {
                assert(before_pos(ops[j - 1], y, true));
                assert(ops[j - 1].old_end() == ops[j].old_start());
            }
        }
        assert(j >= fp) by {
            if j < fp {
                lemma_first_from(ops, 0, p, true, nl);
                assert(before_pos(ops[j], p, true));
            }
        }
        lemma_gap_run(ops, bl, nl, p, q, fp, j);
        assert(run_pair_equal(base, side, ops[j], y - ops[j].old_start()));
    }
    assert(side.subrange(off + p, off + q) =~= base.subrange(p, q));
}

fn side_cut(ops: &[EditOp], x: usize, after: bool, n: usize) -> (c: usize)
    requires
        forall|i: int|
            0 <= i < ops@.len() ==> {
                &&& 0 <= #[trigger] ops@[i].old_start() <= ops@[i].old_end() <= usize::MAX
                &&& 0 <= ops@[i].new_start() <= ops@[i].new_end() <= n
            },
        forall|i: int| 0 <= i < ops@.len() && (#[trigger] ops@[i]) is Equal ==>
            ops@[i].old_end() - ops@[i].old_start() == ops@[i].new_end() - ops@[i].new_start(),
    ensures
        c == cut(ops@, x as int, after, n as int),
{
    let mut i: usize = 0;
    while i < ops.len()
        invariant
            i <= ops@.len(),
            forall|j: int|
                0 <= j < ops@.len() ==> {
                    &&& 0 <= #[trigger] ops@[j].old_start() <= ops@[j].old_end() <= usize::MAX
                    &&& 0 <= ops@[j].new_start() <= ops@[j].new_end() <= n
                },
            forall|j: int| 0 <= j < ops@.len() && (#[trigger] ops@[j]) is Equal ==>
                ops@[j].old_end() - ops@[j].old_start() == ops@[j].new_end() - ops@[j].new_start(),
            cut(ops@, x as int, after, n as int) == cut_from(ops@, i as int, x as int, after, n as int),
        decreases ops.len() - i,
    {
        let ghost o = ops@[i as int];
        let op = ops[i];
        assert(op == o);
        assert(0 <= o.old_start() <= o.old_end() <= usize::MAX);
        assert(0 <= o.new_start() <= o.new_end() <= n);
        let (os, oe, ns) = match op {
            EditOp::Equal { old_index, new_index, len } => (old_index, old_index + len, new_index),
            EditOp::Delete { old_index, old_len, new_index } => (old_index, old_index + old_len, new_index),
            EditOp::Insert { old_index, new_index, .. } => (old_index, old_index, new_index),
            EditOp::Replace { old_index, old_len, new_index, .. } => (old_index, old_index + old_len, new_index),
        };
        assert(os == o.old_start() && oe == o.old_end() && ns == o.new_start());
        if oe < x || (oe == x && (os < x || after)) {
            i = i + 1;
        } else {
            let is_equal = match op {
                EditOp::Equal { .. } => true,
                _ => false,
            };
            if is_equal && os < x {
                return ns + (x - os);
            }
            return ns;
        }
    }
    n
}

/// A side's lines for the base range `start..end`, as [`side_lines`]
/// describes them.
fn extract_side(side: &[String], ops: &[EditOp], start: usize, end: usize) -> (out: Vec<String>)
    requires
        forall|i: int|
            0 <= i < ops@.len() ==> {
                &&& 0 <= #[trigger] ops@[i].old_start() <= ops@[i].old_end() <= usize::MAX
                &&& 0 <= ops@[i].new_start() <= ops@[i].new_end() <= side@.len()
            },
        forall|i: int| 0 <= i < ops@.len() && (#[trigger] ops@[i]) is Equal ==>
            ops@[i].old_end() - ops@[i].old_start() == ops@[i].new_end() - ops@[i].new_start(),
        start <= end,
    ensures
        out.deep_view() == side_lines(side.deep_view(), ops@, start as int, end as int),
{
    let n = side.len();
    let lo = if start == end {
        side_cut(ops, start, false, n)
    } else {
        side_cut(ops, start, true, n)
    };
    let hi = if start == end {
        side_cut(ops, start, true, n)
    } else {
        side_cut(ops, end, false, n)
    };
    if lo <= hi && hi <= n {
        copy_lines(side, lo, hi)
    } else {
        let out: Vec<String> = Vec::new();
        assert(out.deep_view() =~= Seq::<Seq<char>>::empty());
        out
    }
}


/// A base range changed by the left side, the right side, or both, that the
/// hunk builder emits as one hunk.
#[derive(Debug, Clone, Copy, PartialEq, Eq, Structural)]
pub struct Span {
    pub base_start: usize,
    pub base_end: usize,
    pub left: bool,
    pub right: bool,
}

pub open spec fn span_overlaps(a: Span, b: Span) -> bool {
    overlaps(a.base_start as int, a.base_end as int, b.base_start as int, b.base_end as int)
}

/// The change `c` lies within the span.
pub open spec fn span_covers(s: Span, c: (int, int)) -> bool {
    s.base_start <= c.0 && c.1 <= s.base_end
}

/// The change `c` lies within `s..e`.
pub open spec fn within(s: int, e: int, c: (int, int)) -> bool {
    s <= c.0 && c.1 <= e
}

/// Spans are ordered by start, then by end.
pub open spec fn key_lt(a: Span, b: Span) -> bool {
    a.base_start < b.base_start || (a.base_start == b.base_start && a.base_end < b.base_end)
}

/// Some change held by span `sp` starts where the span starts.
pub open spec fn starts_at(
    l: Seq<(int, int)>,
    r: Seq<(int, int)>,
    la: Seq<Span>,
    ra: Seq<Span>,
    sp: Span,
) -> bool {
    (exists|i: int| 0 <= i < l.len() && #[trigger] la[i] == sp && l[i].0 == sp.base_start) || (exists|j: int|
        0 <= j < r.len() && #[trigger] ra[j] == sp && r[j].0 == sp.base_start)
}

/// Some change held by span `sp` ends where the span ends.
pub open spec fn ends_at(
    l: Seq<(int, int)>,
    r: Seq<(int, int)>,
    la: Seq<Span>,
    ra: Seq<Span>,
    sp: Span,
) -> bool {
    (exists|i: int| 0 <= i < l.len() && #[trigger] la[i] == sp && l[i].1 == sp.base_end) || (exists|j: int|
        0 <= j < r.len() && #[trigger] ra[j] == sp && r[j].1 == sp.base_end)
}

/// Some change held by span `sp`, of either side, holds the base position
/// `x` strictly inside its range.
pub open spec fn point_held(
    l: Seq<(int, int)>,
    r: Seq<(int, int)>,
    la: Seq<Span>,
    ra: Seq<Span>,
    sp: Span,
    x: int,
) -> bool {
    (exists|i: int| 0 <= i < l.len() && #[trigger] la[i] == sp && l[i].0 < x < l[i].1) || (exists|j: int|
        0 <= j < r.len() && #[trigger] ra[j] == sp && r[j].0 < x < r[j].1)
}

/// An empty change held by a non-empty span lies strictly inside it.
pub open spec fn empty_inside(c: (int, int), sp: Span) -> bool {
    c.0 == c.1 && sp.base_start < sp.base_end ==> sp.base_start < c.0 < sp.base_end
}

/// What `merge_spans` makes of the left changes `l` and right changes `r`
/// of a base of `bl` lines: spans `s`, ordered and pairwise
/// non-overlapping, where `la[i]` is the span that holds left change `i`
/// and `ra[j]` the one that holds right change `j`; each span is the hull
/// of the changes it holds and records which sides they come from. Two
/// changes that overlap are held by the same span, and within a non-empty
/// span every inner position lies strictly inside one of its changes (an
/// empty change it holds lies strictly inside it). Each span thus holds
/// one group of changes connected by overlaps, and the spans are
/// determined by the changes ([`lemma_spans_unique`]).
pub open spec fn spans_valid(
    l: Seq<(int, int)>,
    r: Seq<(int, int)>,
    bl: int,
    s: Seq<Span>,
    la: Seq<Span>,
    ra: Seq<Span>,
) -> bool {
    &&& la.len() == l.len()
    &&& ra.len() == r.len()
    &&& forall|i: int, j: int| 0 <= i < j < s.len() ==> key_lt(#[trigger] s[i], #[trigger] s[j])
    &&& forall|k: int| 0 <= k < s.len() ==> 0 <= (#[trigger] s[k]).base_start <= s[k].base_end <= bl
    &&& forall|a: int, b: int|
        0 <= a < s.len() && 0 <= b < s.len() && a != b ==> !span_overlaps(
            #[trigger] s[a],
            #[trigger] s[b],
        )
    &&& forall|i: int|
        0 <= i < l.len() ==> s.contains(#[trigger] la[i]) && la[i].left && span_covers(la[i], l[i])
    &&& forall|j: int|
        0 <= j < r.len() ==> s.contains(#[trigger] ra[j]) && ra[j].right && span_covers(ra[j], r[j])
    &&& forall|k: int|
        0 <= k < s.len() && (#[trigger] s[k]).left ==> exists|i: int| 0 <= i < l.len() && la[i] == s[k]
    &&& forall|k: int|
        0 <= k < s.len() && (#[trigger] s[k]).right ==> exists|j: int| 0 <= j < r.len() && ra[j] == s[k]
    &&& forall|k: int| 0 <= k < s.len() ==> starts_at(l, r, la, ra, #[trigger] s[k])
    &&& forall|k: int| 0 <= k < s.len() ==> ends_at(l, r, la, ra, #[trigger] s[k])
    &&& forall|i: int, j: int|
        0 <= i < l.len() && 0 <= j < l.len() && #[trigger] overlaps(l[i].0, l[i].1, l[j].0, l[j].1)
            ==> la[i] == la[j]
    &&& forall|i: int, j: int|
        0 <= i < l.len() && 0 <= j < r.len() && #[trigger] overlaps(l[i].0, l[i].1, r[j].0, r[j].1)
            ==> la[i] == ra[j]
    &&& forall|i: int, j: int|
        0 <= i < r.len() && 0 <= j < r.len() && #[trigger] overlaps(r[i].0, r[i].1, r[j].0, r[j].1)
            ==> ra[i] == ra[j]
    &&& forall|i: int| 0 <= i < l.len() ==> empty_inside(l[i], #[trigger] la[i])
    &&& forall|j: int| 0 <= j < r.len() ==> empty_inside(r[j], #[trigger] ra[j])
    &&& forall|k: int, x: int|
        0 <= k < s.len() && s[k].base_start < x < s[k].base_end ==> #[trigger] point_held(
            l,
            r,
            la,
            ra,
            s[k],
            x,
        )
}

proof fn lemma_disjoint_holders(a: Span, b: Span, c: (int, int), d: (int, int))
    requires
        !span_overlaps(a, b),
        span_covers(a, c),
        span_covers(b, d),
        c.0 <= c.1,
        d.0 <= d.1,
        empty_inside(c, a),
        empty_inside(d, b),
    ensures
        !overlaps(c.0, c.1, d.0, d.1),
{
}

/// Some change of `c`, held by `sp`, holds `x` strictly inside its range.
spec fn joined_held(c: Seq<(int, int)>, h: Seq<Span>, sp: Span, x: int) -> bool {
    exists|a: int| 0 <= a < c.len() && #[trigger] h[a] == sp && c[a].0 < x < c[a].1
}

/// Some change of `c`, held by `sp`, starts where `sp` starts.
spec fn joined_starts(c: Seq<(int, int)>, h: Seq<Span>, sp: Span) -> bool {
    exists|a: int| 0 <= a < c.len() && #[trigger] h[a] == sp && c[a].0 == sp.base_start
}

/// Some change of `c`, held by `sp`, ends where `sp` ends.
spec fn joined_ends(c: Seq<(int, int)>, h: Seq<Span>, sp: Span) -> bool {
    exists|a: int| 0 <= a < c.len() && #[trigger] h[a] == sp && c[a].1 == sp.base_end
}

/// Facts of valid spans over the changes of both sides taken as one
/// sequence `l + r`, with their holders `la + ra`.
proof fn lemma_valid_joined(
    l: Seq<(int, int)>,
    r: Seq<(int, int)>,
    bl: int,
    s: Seq<Span>,
    la: Seq<Span>,
    ra: Seq<Span>,
)
    requires
        spans_valid(l, r, bl, s, la, ra),
        forall|i: int| 0 <= i < l.len() ==> (#[trigger] l[i]).0 <= l[i].1,
        forall|j: int| 0 <= j < r.len() ==> (#[trigger] r[j]).0 <= r[j].1,
    ensures
        ({
            let c = l + r;
            let h = la + ra;
            &&& h.len() == c.len()
            &&& forall|a: int, b: int|
                0 <= a < c.len() && 0 <= b < c.len() && #[trigger] overlaps(c[a].0, c[a].1, c[b].0, c[b].1)
                    ==> h[a] == h[b]
            &&& forall|a: int| 0 <= a < c.len() ==> (#[trigger] c[a]).0 <= c[a].1
            &&& forall|a: int| 0 <= a < c.len() ==> empty_inside(c[a], #[trigger] h[a])
            &&& forall|a: int| 0 <= a < c.len() ==> s.contains(#[trigger] h[a]) && span_covers(h[a], c[a])
            &&& forall|k: int, x: int|
                0 <= k < s.len() && s[k].base_start < x < s[k].base_end ==> #[trigger] joined_held(
                    c,
                    h,
                    s[k],
                    x,
                )
            &&& forall|k: int| 0 <= k < s.len() ==> #[trigger] joined_starts(c, h, s[k])
            &&& forall|k: int| 0 <= k < s.len() ==> #[trigger] joined_ends(c, h, s[k])
        }),
{
    let c = l + r;
    let h = la + ra;
    let n = l.len() as int;
    assert forall|a: int, b: int|
        0 <= a < c.len() && 0 <= b < c.len() && #[trigger] overlaps(c[a].0, c[a].1, c[b].0, c[b].1)
            implies h[a] == h[b] by {
        if a < n && b < n {
            assert(c[a] == l[a] && c[b] == l[b] && h[a] == la[a] && h[b] == la[b]);
        } else if a < n {
            assert(c[a] == l[a] && c[b] == r[b - n] && h[a] == la[a] && h[b] == ra[b - n]);
        } else if b < n {
            assert(c[a] == r[a - n] && c[b] == l[b] && h[a] == ra[a - n] && h[b] == la[b]);
            lemma_overlaps_symmetric(c[a].0, c[a].1, c[b].0, c[b].1);
        } else {
            assert(c[a] == r[a - n] && c[b] == r[b - n] && h[a] == ra[a - n] && h[b] == ra[b - n]);
        }
    }
    assert forall|a: int| 0 <= a < c.len() implies (#[trigger] c[a]).0 <= c[a].1 by {
        if a >= n {
            assert(c[a] == r[a - n]);
        }
    }
    assert forall|a: int| 0 <= a < c.len() implies empty_inside(c[a], #[trigger] h[a]) by {
        if a < n {
            assert(c[a] == l[a] && h[a] == la[a]);
        } else {
            assert(c[a] == r[a - n] && h[a] == ra[a - n]);
        }
    }
    assert forall|a: int| 0 <= a < c.len() implies s.contains(#[trigger] h[a]) && span_covers(h[a], c[a]) by {
        if a < n {
            assert(c[a] == l[a] && h[a] == la[a]);
        } else {
            assert(c[a] == r[a - n] && h[a] == ra[a - n]);
        }
    }
    assert forall|k: int, x: int| 0 <= k < s.len() && s[k].base_start < x < s[k].base_end implies #[trigger] joined_held(
        c,
        h,
        s[k],
        x,
    ) by {
        assert(point_held(l, r, la, ra, s[k], x));
        if exists|i: int| 0 <= i < l.len() && #[trigger] la[i] == s[k] && l[i].0 < x < l[i].1 {
            let i = choose|i: int| 0 <= i < l.len() && #[trigger] la[i] == s[k] && l[i].0 < x < l[i].1;
            assert(h[i] == la[i] && c[i] == l[i]);
        } else {
            let j = choose|j: int| 0 <= j < r.len() && #[trigger] ra[j] == s[k] && r[j].0 < x < r[j].1;
            assert(h[j + n] == ra[j] && c[j + n] == r[j]);
        }
    }
    assert forall|k: int| 0 <= k < s.len() implies #[trigger] joined_starts(c, h, s[k]) by {
        assert(starts_at(l, r, la, ra, s[k]));
        if exists|i: int| 0 <= i < l.len() && #[trigger] la[i] == s[k] && l[i].0 == s[k].base_start {
            let i = choose|i: int| 0 <= i < l.len() && #[trigger] la[i] == s[k] && l[i].0 == s[k].base_start;
            assert(h[i] == la[i] && c[i] == l[i]);
        } else {
            let j = choose|j: int| 0 <= j < r.len() && #[trigger] ra[j] == s[k] && r[j].0 == s[k].base_start;
            assert(h[j + n] == ra[j] && c[j + n] == r[j]);
        }
    }
    assert forall|k: int| 0 <= k < s.len() implies #[trigger] joined_ends(c, h, s[k]) by {
        assert(ends_at(l, r, la, ra, s[k]));
        if exists|i: int| 0 <= i < l.len() && #[trigger] la[i] == s[k] && l[i].1 == s[k].base_end {
            let i = choose|i: int| 0 <= i < l.len() && #[trigger] la[i] == s[k] && l[i].1 == s[k].base_end;
            assert(h[i] == la[i] && c[i] == l[i]);
        } else {
            let j = choose|j: int| 0 <= j < r.len() && #[trigger] ra[j] == s[k] && r[j].1 == s[k].base_end;
            assert(h[j + n] == ra[j] && c[j + n] == r[j]);
        }
    }
}

/// Within a span of valid spans `(s, h)`, every held change is joined by
/// a chain of overlaps to the change `w` that starts where the span starts;
/// so any holders `h2` that give overlapping changes the same span give
/// all of them the span of `w`.
proof fn lemma_members_joined(
    c: Seq<(int, int)>,
    h: Seq<Span>,
    h2: Seq<Span>,
    s: Seq<Span>,
    k: int,
    w: int,
    a: int,
)
    requires
        h.len() == c.len(),
        h2.len() == c.len(),
        0 <= k < s.len(),
        forall|b: int| 0 <= b < c.len() ==> (#[trigger] c[b]).0 <= c[b].1,
        forall|b: int| 0 <= b < c.len() ==> empty_inside(c[b], #[trigger] h[b]),
        forall|b: int| 0 <= b < c.len() ==> s.contains(#[trigger] h[b]) && span_covers(h[b], c[b]),
        forall|kk: int, x: int|
            0 <= kk < s.len() && s[kk].base_start < x < s[kk].base_end ==> #[trigger] joined_held(
                c,
                h,
                s[kk],
                x,
            ),
        forall|b1: int, b2: int|
            0 <= b1 < c.len() && 0 <= b2 < c.len() && #[trigger] overlaps(c[b1].0, c[b1].1, c[b2].0, c[b2].1)
                ==> h2[b1] == h2[b2],
        0 <= w < c.len(),
        h[w] == s[k],
        c[w].0 == s[k].base_start,
        0 <= a < c.len(),
        h[a] == s[k],
    ensures
        h2[a] == h2[w],
    decreases c[a].0 - s[k].base_start,
{
    let sp = s[k];
    assert(span_covers(h[a], c[a]) && span_covers(h[w], c[w]));
    assert(empty_inside(c[a], h[a]) && empty_inside(c[w], h[w]));
    if sp.base_start == sp.base_end {
        assert(overlaps(c[a].0, c[a].1, c[w].0, c[w].1));
    } else if c[a].0 == sp.base_start {
        assert(c[a].0 < c[a].1);
        assert(c[w].0 < c[w].1);
        assert(overlaps(c[a].0, c[a].1, c[w].0, c[w].1));
    } else {
        let x = c[a].0;
        assert(joined_held(c, h, s[k], x));
        let p = choose|p: int| 0 <= p < c.len() && #[trigger] h[p] == s[k] && c[p].0 < x < c[p].1;
        assert(overlaps(c[a].0, c[a].1, c[p].0, c[p].1));
        lemma_members_joined(c, h, h2, s, k, w, p);
    }
}

/// Two sequences ordered strictly by [`key_lt`] with the same elements
/// are equal.
proof fn lemma_sorted_unique(a: Seq<Span>, b: Seq<Span>)
    requires
        forall|i: int, j: int| 0 <= i < j < a.len() ==> key_lt(#[trigger] a[i], #[trigger] a[j]),
        forall|i: int, j: int| 0 <= i < j < b.len() ==> key_lt(#[trigger] b[i], #[trigger] b[j]),
        forall|x: Span| a.contains(x) <==> b.contains(x),
    ensures
        a == b,
    decreases a.len(),
{
    if a.len() == 0 {
        if b.len() > 0 {
            assert(b.contains(b[0]));
        }
        assert(a =~= b);
    } else {
        assert(a.contains(a[0]));
        assert(b.len() > 0);
        assert(b.contains(b[0]));
        let i = choose|i: int| 0 <= i < a.len() && a[i] == b[0];
        let j = choose|j: int| 0 <= j < b.len() && b[j] == a[0];
        if i > 0 {
            assert(key_lt(a[0], a[i]));
            if j > 0 {
                assert(key_lt(b[0], b[j]));
            }
        }
        if j > 0 {
            assert(key_lt(b[0], b[j]));
        }
        assert(a[0] == b[0]);
        let ta = a.drop_first();
        let tb = b.drop_first();
        assert forall|x: Span| ta.contains(x) <==> tb.contains(x) by {
            if ta.contains(x) {
                let p = choose|p: int| 0 <= p < ta.len() && ta[p] == x;
                assert(a[p + 1] == x);
                assert(key_lt(a[0], a[p + 1]));
                assert(a.contains(x));
                let q = choose|q: int| 0 <= q < b.len() && b[q] == x;
                if q == 0 {
                    assert(false);
                }
                assert(tb[q - 1] == x);
            }
            if tb.contains(x) {
                let p = choose|p: int| 0 <= p < tb.len() && tb[p] == x;
                assert(b[p + 1] == x);
                assert(key_lt(b[0], b[p + 1]));
                assert(b.contains(x));
                let q = choose|q: int| 0 <= q < a.len() && a[q] == x;
                if q == 0 {
                    assert(false);
                }
                assert(ta[q - 1] == x);
            }
        }
        assert forall|p: int, q: int| 0 <= p < q < ta.len() implies key_lt(#[trigger] ta[p], #[trigger] ta[q]) by {
            assert(ta[p] == a[p + 1] && ta[q] == a[q + 1]);
        }
        assert forall|p: int, q: int| 0 <= p < q < tb.len() implies key_lt(#[trigger] tb[p], #[trigger] tb[q]) by {
            assert(tb[p] == b[p + 1] && tb[q] == b[q + 1]);
        }
        lemma_sorted_unique(ta, tb);
        assert(a =~= seq![a[0]] + ta);
        assert(b =~= seq![b[0]] + tb);
    }
}

/// Law: the spans that [`spans_valid`] describes are unique. For given
/// changes of the two sides, two families of spans that both satisfy it
/// are the same spans, holding the same changes: the grouping of the
/// changes into hunks is fully determined by the changes.
pub proof fn lemma_spans_unique(
    l: Seq<(int, int)>,
    r: Seq<(int, int)>,
    bl: int,
    s1: Seq<Span>,
    la1: Seq<Span>,
    ra1: Seq<Span>,
    s2: Seq<Span>,
    la2: Seq<Span>,
    ra2: Seq<Span>,
)
    requires
        forall|i: int| 0 <= i < l.len() ==> (#[trigger] l[i]).0 <= l[i].1,
        forall|j: int| 0 <= j < r.len() ==> (#[trigger] r[j]).0 <= r[j].1,
        spans_valid(l, r, bl, s1, la1, ra1),
        spans_valid(l, r, bl, s2, la2, ra2),
    ensures
        s1 == s2,
        la1 == la2,
        ra1 == ra2,
{
    lemma_valid_joined(l, r, bl, s1, la1, ra1);
    lemma_valid_joined(l, r, bl, s2, la2, ra2);
    let c = l + r;
    let h1 = la1 + ra1;
    let h2 = la2 + ra2;
    let n = l.len() as int;
    assert forall|a: int| 0 <= a < c.len() implies #[trigger] h1[a] == h2[a] by {
        let k1 = choose|k: int| 0 <= k < s1.len() && s1[k] == h1[a];
        let k2 = choose|k: int| 0 <= k < s2.len() && s2[k] == h2[a];
        assert(joined_starts(c, h1, s1[k1]));
        assert(joined_ends(c, h1, s1[k1]));
        assert(joined_starts(c, h2, s2[k2]));
        assert(joined_ends(c, h2, s2[k2]));
        let w1 = choose|b: int| 0 <= b < c.len() && #[trigger] h1[b] == s1[k1] && c[b].0 == s1[k1].base_start;
        let e1 = choose|b: int| 0 <= b < c.len() && #[trigger] h1[b] == s1[k1] && c[b].1 == s1[k1].base_end;
        let w2 = choose|b: int| 0 <= b < c.len() && #[trigger] h2[b] == s2[k2] && c[b].0 == s2[k2].base_start;
        let e2 = choose|b: int| 0 <= b < c.len() && #[trigger] h2[b] == s2[k2] && c[b].1 == s2[k2].base_end;
        lemma_members_joined(c, h1, h2, s1, k1, w1, a);
        lemma_members_joined(c, h1, h2, s1, k1, w1, e1);
        lemma_members_joined(c, h2, h1, s2, k2, w2, a);
        lemma_members_joined(c, h2, h1, s2, k2, w2, e2);
        let sp1 = h1[a];
        let sp2 = h2[a];
        assert(span_covers(h2[w1], c[w1]) && span_covers(h2[e1], c[e1]));
        assert(span_covers(h1[w2], c[w2]) && span_covers(h1[e2], c[e2]));
        assert(sp1.base_start == sp2.base_start);
        assert(sp1.base_end == sp2.base_end);
        if sp1.left {
            let i = choose|i: int| 0 <= i < l.len() && la1[i] == s1[k1];
            assert(h1[i] == la1[i]);
            lemma_members_joined(c, h1, h2, s1, k1, w1, i);
            assert(h2[i] == la2[i]);
            assert(la2[i].left);
        }
        if sp2.left {
            let i = choose|i: int| 0 <= i < l.len() && la2[i] == s2[k2];
            assert(h2[i] == la2[i]);
            lemma_members_joined(c, h2, h1, s2, k2, w2, i);
            assert(h1[i] == la1[i]);
            assert(la1[i].left);
        }
        if sp1.right {
            let j = choose|j: int| 0 <= j < r.len() && ra1[j] == s1[k1];
            assert(h1[n + j] == ra1[j]);
            lemma_members_joined(c, h1, h2, s1, k1, w1, n + j);
            assert(h2[n + j] == ra2[j]);
            assert(ra2[j].right);
        }
        if sp2.right {
            let j = choose|j: int| 0 <= j < r.len() && ra2[j] == s2[k2];
            assert(h2[n + j] == ra2[j]);
            lemma_members_joined(c, h2, h1, s2, k2, w2, n + j);
            assert(h1[n + j] == ra1[j]);
            assert(ra1[j].right);
        }
    }
    assert forall|x: Span| s1.contains(x) <==> s2.contains(x) by {
        if s1.contains(x) {
            let k = choose|k: int| 0 <= k < s1.len() && s1[k] == x;
            assert(joined_starts(c, h1, s1[k]));
            let a = choose|b: int| 0 <= b < c.len() && #[trigger] h1[b] == s1[k] && c[b].0 == s1[k].base_start;
            assert(h2[a] == x);
        }
        if s2.contains(x) {
            let k = choose|k: int| 0 <= k < s2.len() && s2[k] == x;
            assert(joined_starts(c, h2, s2[k]));
            let a = choose|b: int| 0 <= b < c.len() && #[trigger] h2[b] == s2[k] && c[b].0 == s2[k].base_start;
            assert(h1[a] == x);
        }
    }
    lemma_sorted_unique(s1, s2);
    assert forall|i: int| 0 <= i < l.len() implies la1[i] == la2[i] by {
        assert(h1[i] == la1[i] && h2[i] == la2[i]);
    }
    assert forall|j: int| 0 <= j < r.len() implies ra1[j] == ra2[j] by {
        assert(h1[n + j] == ra1[j] && h2[n + j] == ra2[j]);
    }
    assert(la1 =~= la2);
    assert(ra1 =~= ra2);
}

/// The number of `false` entries.
pub open spec fn count_unused(u: Seq<bool>) -> nat
    decreases u.len(),
{
    if u.len() == 0 {
        0
    } else {
        count_unused(u.drop_last()) + if u.last() {
            0nat
        } else {
            1nat
        }
    }
}

proof fn lemma_count_unused_mono(a: Seq<bool>, b: Seq<bool>)
    requires
        a.len() == b.len(),
        forall|i: int| 0 <= i < a.len() && a[i] ==> b[i],
    ensures
        count_unused(b) <= count_unused(a),
        (exists|i: int| 0 <= i < a.len() && !a[i] && b[i]) ==> count_unused(b) < count_unused(a),
    decreases a.len(),
{
    if a.len() > 0 {
        let a1 = a.drop_last();
        let b1 = b.drop_last();
        assert forall|i: int| 0 <= i < a1.len() && a1[i] implies b1[i] by {
            assert(a1[i] == a[i] && b1[i] == b[i]);
        }
        lemma_count_unused_mono(a1, b1);
        if exists|i: int| 0 <= i < a.len() && !a[i] && b[i] {
            let i = choose|i: int| 0 <= i < a.len() && !a[i] && b[i];
            if i < a.len() - 1 {
                assert(!a1[i] && b1[i]);
            }
        }
    }
}

proof fn lemma_count_all_unused(u: Seq<bool>)
    requires
        forall|i: int| 0 <= i < u.len() ==> !u[i],
    ensures
        count_unused(u) == u.len(),
    decreases u.len(),
{
    if u.len() > 0 {
        let u1 = u.drop_last();
        assert forall|i: int| 0 <= i < u1.len() implies !u1[i] by {
            assert(u1[i] == u[i]);
        }
        lemma_count_all_unused(u1);
    }
}

/// Neither overlaps a finished span nor starts before it.
spec fn clear_of(olds: Seq<Span>, s: int, e: int) -> bool {
    forall|k: int|
        0 <= k < olds.len() ==> !overlaps(
            (#[trigger] olds[k]).base_start as int,
            olds[k].base_end as int,
            s,
            e,
        ) && s >= olds[k].base_start
}

/// Some change of `cs` that is used now but was not in `used0` holds the
/// base position `x` strictly inside its range.
spec fn newly_covers(cs: Seq<Change>, used: Seq<bool>, used0: Seq<bool>, x: int) -> bool {
    exists|q: int|
        0 <= q < cs.len() && used[q] && !used0[q] && (#[trigger] cs[q]).base_start < x < cs[q].base_end
}

proof fn lemma_grow_clear(olds: Seq<Span>, s: int, e: int, c0: int, c1: int)
    requires
        clear_of(olds, s, e),
        clear_of(olds, c0, c1),
        s <= e,
        c0 <= c1,
        s <= c0,
        overlaps(s, e, c0, c1),
    ensures
        clear_of(olds, s, if c1 > e { c1 } else { e }),
{
    assert forall|k: int| 0 <= k < olds.len() implies !overlaps(
        (#[trigger] olds[k]).base_start as int,
        olds[k].base_end as int,
        s,
        if c1 > e { c1 } else { e },
    ) && s >= olds[k].base_start by {
        let a0 = olds[k].base_start as int;
        let a1 = olds[k].base_end as int;
        assert(!overlaps(a0, a1, s, e));
        assert(!overlaps(a0, a1, c0, c1));
    }
}

/// The smallest start among the unused changes of both sides (the left side
/// wins ties), or `None` when every change is used.
fn find_seed(left: &[Change], right: &[Change], lu: &Vec<bool>, ru: &Vec<bool>) -> (r: Option<
    (bool, usize),
>)
    requires
        lu@.len() == left@.len(),
        ru@.len() == right@.len(),
        forall|i: int| 0 <= i < left@.len() ==> (#[trigger] left@[i]).base_start < usize::MAX,
        forall|i: int| 0 <= i < right@.len() ==> (#[trigger] right@[i]).base_start < usize::MAX,
    ensures
        r is None ==> (forall|i: int| 0 <= i < lu@.len() ==> lu@[i]) && (forall|i: int|
            0 <= i < ru@.len() ==> ru@[i]),
        r matches Some((is_left, idx)) ==> {
            let st = if is_left {
                left@[idx as int].base_start
            } else {
                right@[idx as int].base_start
            };
            &&& is_left ==> idx < left@.len() && !lu@[idx as int]
            &&& !is_left ==> idx < right@.len() && !ru@[idx as int]
            &&& forall|i: int|
                0 <= i < left@.len() && !lu@[i] ==> st <= (#[trigger] left@[i]).base_start
            &&& forall|i: int|
                0 <= i < right@.len() && !ru@[i] ==> st <= (#[trigger] right@[i]).base_start
        },
{
    let mut seed: Option<(bool, usize)> = None;
    let mut best = usize::MAX;
    let mut i: usize = 0;
    while i < left.len()
        invariant
            i <= left@.len(),
            lu@.len() == left@.len(),
            forall|q: int| 0 <= q < left@.len() ==> (#[trigger] left@[q]).base_start < usize::MAX,
            seed is None ==> best == usize::MAX && forall|q: int| 0 <= q < i ==> lu@[q],
            seed matches Some((is_left, idx)) ==> is_left && idx < i && !lu@[idx as int]
                && left@[idx as int].base_start == best,
            forall|q: int| 0 <= q < i && !lu@[q] ==> best <= (#[trigger] left@[q]).base_start,
        decreases left.len() - i,
    {
        if !lu[i] && left[i].base_start < best {
            best = left[i].base_start;
            seed = Some((true, i));
        }
        i = i + 1;
    }
    let mut j: usize = 0;
    while j < right.len()
        invariant
            j <= right@.len(),
            ru@.len() == right@.len(),
            lu@.len() == left@.len(),
            forall|q: int| 0 <= q < right@.len() ==> (#[trigger] right@[q]).base_start < usize::MAX,
            seed is None ==> best == usize::MAX && (forall|q: int| 0 <= q < left@.len() ==> lu@[q])
                && forall|q: int| 0 <= q < j ==> ru@[q],
            seed matches Some((is_left, idx)) ==> (is_left ==> idx < left@.len() && !lu@[idx as int]
                && left@[idx as int].base_start == best) && (!is_left ==> idx < j
                && !ru@[idx as int] && right@[idx as int].base_start == best),
            forall|q: int| 0 <= q < left@.len() && !lu@[q] ==> best <= (#[trigger] left@[q]).base_start,
            forall|q: int| 0 <= q < j && !ru@[q] ==> best <= (#[trigger] right@[q]).base_start,
        decreases right.len() - j,
    {
        if !ru[j] && right[j].base_start < best {
            best = right[j].base_start;
            seed = Some((false, j));
        }
        j = j + 1;
    }
    seed
}

/// One pass over one side's changes: every unused change that overlaps the
/// growing span `start..end` joins it.
fn absorb_side(
    cs: &[Change],
    used: &mut Vec<bool>,
    start: &mut usize,
    end: &mut usize,
    has: &mut bool,
    Ghost(olds): Ghost<Seq<Span>>,
) -> (r: (bool, Ghost<int>, Ghost<int>))
    requires
        old(used)@.len() == cs@.len(),
        *old(start) <= *old(end),
        forall|i: int|
            0 <= i < cs@.len() ==> (#[trigger] cs@[i]).base_start <= cs@[i].base_end,
        forall|i: int|
            0 <= i < cs@.len() && !old(used)@[i] ==> *old(start) <= (#[trigger] cs@[i]).base_start
                && clear_of(olds, cs@[i].base_start as int, cs@[i].base_end as int),
        clear_of(olds, *old(start) as int, *old(end) as int),
    ensures
        final(used)@.len() == cs@.len(),
        *final(start) == *old(start),
        *final(end) >= *old(end),
        clear_of(olds, *final(start) as int, *final(end) as int),
        forall|i: int| 0 <= i < cs@.len() && old(used)@[i] ==> final(used)@[i],
        forall|i: int|
            0 <= i < cs@.len() && final(used)@[i] && !old(used)@[i] ==> within(*final(start) as int, *final(end) as int, change_view(#[trigger] cs@[i]),
            ),
        r.0 ==> 0 <= r.1@ < cs@.len() && final(used)@[r.1@] && !old(used)@[r.1@],
        !r.0 ==> final(used)@ == old(used)@ && *final(end) == *old(end),
        *final(has) == (*old(has) || r.0),
        *final(end) != *old(end) ==> 0 <= r.2@ < cs@.len() && final(used)@[r.2@] && !old(used)@[r.2@]
            && cs@[r.2@].base_end == *final(end),
        !r.0 ==> forall|i: int|
            0 <= i < cs@.len() && !final(used)@[i] ==> !overlaps(
                *final(start) as int,
                *final(end) as int,
                (#[trigger] cs@[i]).base_start as int,
                cs@[i].base_end as int,
            ),
        *old(start) == *old(end) ==> *final(end) == *old(end),
        *old(start) == *old(end) ==> forall|i: int|
            0 <= i < cs@.len() && final(used)@[i] && !old(used)@[i] ==> (#[trigger] cs@[i]).base_start
                == *old(start) && cs@[i].base_end == *old(start),
        *old(start) < *old(end) ==> forall|i: int|
            0 <= i < cs@.len() && final(used)@[i] && !old(used)@[i] && (#[trigger] cs@[i]).base_start
                == cs@[i].base_end ==> *final(start) < cs@[i].base_start < *final(end),
        forall|x: int|
            *old(end) <= x < *final(end) ==> #[trigger] newly_covers(cs@, final(used)@, old(used)@, x),
{
    let ghost used0 = used@;
    let ghost end0 = *end;
    let ghost has0 = *has;
    let mut expanded = false;
    let ghost mut wit: int = -1;
    let ghost mut wend: int = -1;
    let mut i: usize = 0;
    while i < cs.len()
        invariant
            i <= cs@.len(),
            used@.len() == cs@.len(),
            used0.len() == cs@.len(),
            *start <= *end,
            *start == *old(start),
            *end >= end0,
            end0 == *old(end),
            has0 == *old(has),
            used0 == old(used)@,
            forall|q: int| 0 <= q < cs@.len() ==> (#[trigger] cs@[q]).base_start <= cs@[q].base_end,
            forall|q: int|
                0 <= q < cs@.len() && !used0[q] ==> *start <= (#[trigger] cs@[q]).base_start
                    && clear_of(olds, cs@[q].base_start as int, cs@[q].base_end as int),
            clear_of(olds, *start as int, *end as int),
            forall|q: int| 0 <= q < cs@.len() && used0[q] ==> used@[q],
            forall|q: int| i <= q < cs@.len() ==> used@[q] == used0[q],
            forall|q: int|
                0 <= q < cs@.len() && used@[q] && !used0[q] ==> *start <= (#[trigger] cs@[q]).base_start
                    && cs@[q].base_end <= *end,
            expanded ==> 0 <= wit < cs@.len() && used@[wit] && !used0[wit],
            !expanded ==> used@ == used0 && *end == end0,
            *has == (has0 || expanded),
            *end != end0 ==> 0 <= wend < cs@.len() && used@[wend] && !used0[wend] && cs@[wend].base_end
                == *end,
            !expanded ==> forall|q: int|
                0 <= q < i && !used@[q] ==> !overlaps(
                    *start as int,
                    *end as int,
                    (#[trigger] cs@[q]).base_start as int,
                    cs@[q].base_end as int,
                ),
            *start == end0 ==> *end == end0,
            *start == end0 ==> forall|q: int|
                0 <= q < cs@.len() && used@[q] && !used0[q] ==> (#[trigger] cs@[q]).base_start
                    == *start && cs@[q].base_end == *start,
            *start < end0 ==> forall|q: int|
                0 <= q < cs@.len() && used@[q] && !used0[q] && (#[trigger] cs@[q]).base_start
                    == cs@[q].base_end ==> *start < cs@[q].base_start < *end,
            forall|x: int| end0 <= x < *end ==> #[trigger] newly_covers(cs@, used@, used0, x),
        decreases cs.len() - i,
    {
        let c = cs[i];
        if !used[i] && ranges_overlap(*start, *end, c.base_start, c.base_end) {
            proof {
                lemma_grow_clear(olds, *start as int, *end as int, c.base_start as int, c.base_end as int);
            }
            let ghost used_before = used@;
            let ghost end_before = *end;
            used.set(i, true);
            *start = if *start < c.base_start { *start } else { c.base_start };
            if c.base_end > *end {
                *end = c.base_end;
                proof {
                    wend = i as int;
                }
            }
            *has = true;
            expanded = true;
            proof {
                wit = i as int;
                assert(cs@[i as int] == c);
                assert forall|x: int| end0 <= x < *end implies #[trigger] newly_covers(cs@, used@, used0, x) by {
                    if x < end_before {
                        assert(newly_covers(cs@, used_before, used0, x));
                        let q = choose|q: int|
                            0 <= q < cs@.len() && used_before[q] && !used0[q] && (#[trigger] cs@[q]).base_start < x
                                < cs@[q].base_end;
                        assert(used@[q]);
                    } else {
                        assert(used@[i as int] && !used0[i as int]);
                    }
                }
            }
        }
        i = i + 1;
    }
    (expanded, Ghost(wit), Ghost(wend))
}


proof fn lemma_overlaps_symmetric(a0: int, a1: int, b0: int, b1: int)
    ensures
        overlaps(a0, a1, b0, b1) == overlaps(b0, b1, a0, a1),
{
}

fn sort_spans(v: Vec<Span>) -> (out: Vec<Span>)
    requires
        forall|k: int| 0 <= k < v@.len() ==> (#[trigger] v@[k]).base_start <= v@[k].base_end,
        forall|a: int, b: int|
            0 <= a < v@.len() && 0 <= b < v@.len() && a != b ==> !span_overlaps(
                #[trigger] v@[a],
                #[trigger] v@[b],
            ),
    ensures
        out@.len() == v@.len(),
        forall|i: int, j: int| 0 <= i < j < out@.len() ==> key_lt(#[trigger] out@[i], #[trigger] out@[j]),
        forall|x: Span| out@.contains(x) <==> v@.contains(x),
{
    let mut out: Vec<Span> = Vec::new();
    let mut i: usize = 0;
    while i < v.len()
        invariant
            i <= v@.len(),
            out@.len() == i,
            forall|k: int| 0 <= k < v@.len() ==> (#[trigger] v@[k]).base_start <= v@[k].base_end,
            forall|a: int, b: int|
                0 <= a < v@.len() && 0 <= b < v@.len() && a != b ==> !span_overlaps(
                    #[trigger] v@[a],
                    #[trigger] v@[b],
                ),
            forall|a: int, b: int| 0 <= a < b < out@.len() ==> key_lt(#[trigger] out@[a], #[trigger] out@[b]),
            forall|x: Span| out@.contains(x) <==> v@.take(i as int).contains(x),
        decreases v.len() - i,
    {
        let x = v[i];
        let mut p: usize = 0;
        while p < out.len() && !(x.base_start < out[p].base_start || (x.base_start
            == out[p].base_start && x.base_end < out[p].base_end))
            invariant
                p <= out@.len(),
                forall|q: int| 0 <= q < p ==> !key_lt(x, #[trigger] out@[q]),
            decreases out.len() - p,
        {
            p = p + 1;
        }
        proof {
            assert forall|q: int| 0 <= q < out@.len() implies (#[trigger] out@[q]) != x
                && (out@[q].base_start != x.base_start || out@[q].base_end != x.base_end) by {
                assert(out@.contains(out@[q]));
                assert(v@.take(i as int).contains(out@[q]));
                let j = choose|j: int| 0 <= j < i && #[trigger] v@.take(i as int)[j] == out@[q];
                assert(v@[j] == out@[q]);
                assert(!span_overlaps(v@[j], v@[i as int]));
            }
        }
        let ghost before = out@;
        out.insert(p, x);
        proof {
            assert(out@ == before.insert(p as int, x));
            assert forall|a: int, b: int| 0 <= a < b < out@.len() implies key_lt(
                #[trigger] out@[a],
                #[trigger] out@[b],
            ) by {
                if b < p {
                    assert(out@[a] == before[a] && out@[b] == before[b]);
                } else if b == p {
                    assert(out@[a] == before[a]);
                    assert(!key_lt(x, before[a]));
                } else if a == p {
                    assert(out@[b] == before[b - 1]);
                    if p < before.len() {
                        assert(key_lt(x, before[p as int]));
                        if b - 1 > p {
                            assert(key_lt(before[p as int], before[b - 1]));
                        }
                    }
                } else if a < p {
                    assert(out@[a] == before[a] && out@[b] == before[b - 1]);
                } else {
                    assert(out@[a] == before[a - 1] && out@[b] == before[b - 1]);
                }
            }
            assert forall|y: Span| out@.contains(y) <==> v@.take(i + 1).contains(y) by {
                if out@.contains(y) {
                    let q = choose|q: int| 0 <= q < out@.len() && out@[q] == y;
                    if q == p {
                        assert(v@.take(i + 1)[i as int] == y);
                    } else if q < p {
                        assert(before[q] == y);
                        assert(before.contains(y));
                        let j = choose|j: int| 0 <= j < i && #[trigger] v@.take(i as int)[j] == y;
                        assert(v@.take(i + 1)[j] == y);
                    } else {
                        assert(before[q - 1] == y);
                        assert(before.contains(y));
                        let j = choose|j: int| 0 <= j < i && #[trigger] v@.take(i as int)[j] == y;
                        assert(v@.take(i + 1)[j] == y);
                    }
                }
                if v@.take(i + 1).contains(y) {
                    let j = choose|j: int| 0 <= j < i + 1 && #[trigger] v@.take(i + 1)[j] == y;
                    if j == i {
                        assert(out@[p as int] == y);
                    } else {
                        assert(v@.take(i as int)[j] == y);
                        assert(before.contains(y));
                        let q = choose|q: int| 0 <= q < before.len() && before[q] == y;
                        if q < p {
                            assert(out@[q] == y);
                        } else {
                            assert(out@[q + 1] == y);
                        }
                    }
                }
            }
        }
        i = i + 1;
    }
    assert(v@.take(v@.len() as int) =~= v@);
    out
}


/// `w` names a change of span `k` (`w.0`: on the left side) whose start (or
/// end, with `at_end`) is the span's.
spec fn bound_witness(
    l: Seq<Change>,
    r: Seq<Change>,
    stat_l: Seq<int>,
    stat_r: Seq<int>,
    sp: Span,
    k: int,
    w: (bool, int),
    at_end: bool,
) -> bool {
    if w.0 {
        &&& 0 <= w.1 < l.len()
        &&& stat_l[w.1] == k
        &&& if at_end {
            l[w.1].base_end == sp.base_end
        } else {
            l[w.1].base_start == sp.base_start
        }
    } else {
        &&& 0 <= w.1 < r.len()
        &&& stat_r[w.1] == k
        &&& if at_end {
            r[w.1].base_end == sp.base_end
        } else {
            r[w.1].base_start == sp.base_start
        }
    }
}

/// Some change held by span `k` (left or right) holds the base position
/// `x` strictly inside its range.
spec fn held_covers(l: Seq<Change>, r: Seq<Change>, stat_l: Seq<int>, stat_r: Seq<int>, k: int, x: int) -> bool {
    (exists|i: int| 0 <= i < l.len() && stat_l[i] == k && (#[trigger] l[i]).base_start < x < l[i].base_end)
        || (exists|j: int| 0 <= j < r.len() && stat_r[j] == k && (#[trigger] r[j]).base_start < x < r[j].base_end)
}

/// A change of either side, used now but not at the start of the span,
/// holds `x` strictly inside its range.
spec fn either_covers(
    l: Seq<Change>,
    r: Seq<Change>,
    lu: Seq<bool>,
    ru: Seq<bool>,
    lu0: Seq<bool>,
    ru0: Seq<bool>,
    x: int,
) -> bool {
    newly_covers(l, lu, lu0, x) || newly_covers(r, ru, ru0, x)
}

/// The state of `merge_spans` between two spans: `stat_l[i]` is the span
/// that holds left change `i`, or -1 while it is unused; `lw`, `rw`, `sw`,
/// `ew` are witnesses of the spans' flags and bounds.
spec fn merge_inv(
    l: Seq<Change>,
    r: Seq<Change>,
    bl: int,
    spans: Seq<Span>,
    lu: Seq<bool>,
    ru: Seq<bool>,
    stat_l: Seq<int>,
    stat_r: Seq<int>,
    lw: Seq<int>,
    rw: Seq<int>,
    sw: Seq<(bool, int)>,
    ew: Seq<(bool, int)>,
) -> bool {
    &&& lu.len() == l.len() && stat_l.len() == l.len()
    &&& ru.len() == r.len() && stat_r.len() == r.len()
    &&& lw.len() == spans.len() && rw.len() == spans.len()
    &&& sw.len() == spans.len() && ew.len() == spans.len()
    &&& forall|i: int|
        0 <= i < l.len() ==> (lu[i] <==> #[trigger] stat_l[i] >= 0) && -1 <= stat_l[i] < spans.len()
    &&& forall|i: int|
        0 <= i < r.len() ==> (ru[i] <==> #[trigger] stat_r[i] >= 0) && -1 <= stat_r[i] < spans.len()
    &&& forall|i: int|
        0 <= i < l.len() && #[trigger] stat_l[i] >= 0 ==> spans[stat_l[i]].left && span_covers(
            spans[stat_l[i]],
            change_view(l[i]),
        )
    &&& forall|i: int|
        0 <= i < r.len() && #[trigger] stat_r[i] >= 0 ==> spans[stat_r[i]].right && span_covers(
            spans[stat_r[i]],
            change_view(r[i]),
        )
    &&& forall|k: int|
        0 <= k < spans.len() && (#[trigger] spans[k]).left ==> 0 <= lw[k] < l.len() && stat_l[lw[k]]
            == k
    &&& forall|k: int|
        0 <= k < spans.len() && (#[trigger] spans[k]).right ==> 0 <= rw[k] < r.len() && stat_r[rw[k]]
            == k
    &&& forall|k: int|
        0 <= k < spans.len() ==> bound_witness(l, r, stat_l, stat_r, #[trigger] spans[k], k, sw[k], false)
    &&& forall|k: int|
        0 <= k < spans.len() ==> bound_witness(l, r, stat_l, stat_r, #[trigger] spans[k], k, ew[k], true)
    &&& forall|k: int|
        0 <= k < spans.len() ==> 0 <= (#[trigger] spans[k]).base_start <= spans[k].base_end <= bl
    &&& forall|a: int, b: int|
        0 <= a < spans.len() && 0 <= b < spans.len() && a != b ==> !span_overlaps(
            #[trigger] spans[a],
            #[trigger] spans[b],
        )
    &&& forall|i: int|
        0 <= i < l.len() && #[trigger] stat_l[i] == -1 ==> clear_of(
            spans,
            l[i].base_start as int,
            l[i].base_end as int,
        )
    &&& forall|i: int|
        0 <= i < r.len() && #[trigger] stat_r[i] == -1 ==> clear_of(
            spans,
            r[i].base_start as int,
            r[i].base_end as int,
        )
    &&& forall|i: int|
        0 <= i < l.len() && #[trigger] stat_l[i] >= 0 && l[i].base_start == l[i].base_end
            && spans[stat_l[i]].base_start < spans[stat_l[i]].base_end ==> spans[stat_l[i]].base_start
            < l[i].base_start < spans[stat_l[i]].base_end
    &&& forall|j: int|
        0 <= j < r.len() && #[trigger] stat_r[j] >= 0 && r[j].base_start == r[j].base_end
            && spans[stat_r[j]].base_start < spans[stat_r[j]].base_end ==> spans[stat_r[j]].base_start
            < r[j].base_start < spans[stat_r[j]].base_end
    &&& forall|k: int, x: int|
        0 <= k < spans.len() && spans[k].base_start < x < spans[k].base_end ==> #[trigger] held_covers(
            l,
            r,
            stat_l,
            stat_r,
            k,
            x,
        )
}

/// Groups the changes of both sides into spans: starting from the unused
/// change that starts first, a span absorbs every unused change that
/// overlaps it, until none does; the spans come out ordered by base range.
fn merge_spans(left: &[Change], right: &[Change], Ghost(bl): Ghost<int>) -> (r: (
    Vec<Span>,
    Ghost<Seq<Span>>,
    Ghost<Seq<Span>>,
))
    requires
        bl < usize::MAX,
        forall|i: int|
            0 <= i < left@.len() ==> 0 <= (#[trigger] left@[i]).base_start <= left@[i].base_end <= bl,
        forall|i: int|
            0 <= i < right@.len() ==> 0 <= (#[trigger] right@[i]).base_start <= right@[i].base_end
                <= bl,
    ensures
        spans_valid(changes_view(left@), changes_view(right@), bl, r.0@, r.1@, r.2@),
        r.0@.len() <= left@.len() + right@.len(),
{
    let mut left_used: Vec<bool> = vec![false; left.len()];
    let mut right_used: Vec<bool> = vec![false; right.len()];
    let mut spans: Vec<Span> = Vec::new();
    let ghost l = left@;
    let ghost r = right@;
    let ghost mut stat_l: Seq<int> = Seq::new(l.len(), |i: int| -1);
    let ghost mut stat_r: Seq<int> = Seq::new(r.len(), |i: int| -1);
    let ghost mut lw: Seq<int> = Seq::empty();
    let ghost mut rw: Seq<int> = Seq::empty();
    let ghost mut sw: Seq<(bool, int)> = Seq::empty();
    let ghost mut ew: Seq<(bool, int)> = Seq::empty();
    proof {
        lemma_count_all_unused(left_used@);
        lemma_count_all_unused(right_used@);
    }

    loop
        invariant_except_break
            l == left@,
            r == right@,
            bl < usize::MAX,
            forall|i: int| 0 <= i < l.len() ==> 0 <= (#[trigger] l[i]).base_start <= l[i].base_end <= bl,
            forall|i: int| 0 <= i < r.len() ==> 0 <= (#[trigger] r[i]).base_start <= r[i].base_end <= bl,
            merge_inv(l, r, bl, spans@, left_used@, right_used@, stat_l, stat_r, lw, rw, sw, ew),
            spans@.len() + count_unused(left_used@) + count_unused(right_used@) <= l.len() + r.len(),
        ensures
            l == left@,
            r == right@,
            merge_inv(l, r, bl, spans@, left_used@, right_used@, stat_l, stat_r, lw, rw, sw, ew),
            spans@.len() <= l.len() + r.len(),
            forall|i: int| 0 <= i < l.len() ==> left_used@[i],
            forall|i: int| 0 <= i < r.len() ==> right_used@[i],
        decreases count_unused(left_used@) + count_unused(right_used@),
    {
        let seed = find_seed(left, right, &left_used, &right_used);
        let (is_left, idx) = match seed {
            None => break,
            Some(s) => s,
        };
        let ghost lu0 = left_used@;
        let ghost ru0 = right_used@;
        let ghost m0 = count_unused(lu0) + count_unused(ru0);
        let mut start;
        let mut end;
        let mut has_l;
        let mut has_r;
        if is_left {
            left_used.set(idx, true);
            start = left[idx].base_start;
            end = left[idx].base_end;
            has_l = true;
            has_r = false;
        } else {
            right_used.set(idx, true);
            start = right[idx].base_start;
            end = right[idx].base_end;
            has_l = false;
            has_r = true;
        }
        proof {
            lemma_count_unused_mono(lu0, left_used@);
            lemma_count_unused_mono(ru0, right_used@);
            if is_left {
                assert(!lu0[idx as int] && left_used@[idx as int]);
            } else {
                assert(!ru0[idx as int] && right_used@[idx as int]);
            }
        }
        let ghost seed_start = start;
        let ghost mut gl: int = if is_left { idx as int } else { -1 };
        let ghost mut gr: int = if is_left { -1 } else { idx as int };
        let ghost mut we: (bool, int) = (is_left, idx as int);
        let ghost olds = spans@;
        proof {
            if is_left {
                assert(stat_l[idx as int] == -1);
            } else {
                assert(stat_r[idx as int] == -1);
            }
            assert forall|i: int| 0 <= i < l.len() && left_used@[i] && !lu0[i] implies i == idx && is_left by {}
            assert forall|i: int| 0 <= i < r.len() && right_used@[i] && !ru0[i] implies i == idx && !is_left by {}
            assert forall|x: int| start < x < end implies #[trigger] either_covers(l, r, left_used@, right_used@, lu0, ru0, x) by {
                if is_left {
                    assert(l[idx as int].base_start < x < l[idx as int].base_end);
                    assert(newly_covers(l, left_used@, lu0, x));
                } else {
                    assert(r[idx as int].base_start < x < r[idx as int].base_end);
                    assert(newly_covers(r, right_used@, ru0, x));
                }
            }
        }
        let mut expanded = true;
        while expanded
            invariant
                l == left@,
                r == right@,
                olds == spans@,
                bl < usize::MAX,
                forall|i: int| 0 <= i < l.len() ==> 0 <= (#[trigger] l[i]).base_start <= l[i].base_end <= bl,
                forall|i: int| 0 <= i < r.len() ==> 0 <= (#[trigger] r[i]).base_start <= r[i].base_end <= bl,
                merge_inv(l, r, bl, spans@, lu0, ru0, stat_l, stat_r, lw, rw, sw, ew),
                left_used@.len() == l.len(),
                right_used@.len() == r.len(),
                forall|i: int| 0 <= i < l.len() && lu0[i] ==> left_used@[i],
                forall|i: int| 0 <= i < r.len() && ru0[i] ==> right_used@[i],
                start == seed_start,
                start <= end <= bl,
                forall|i: int| 0 <= i < l.len() && !left_used@[i] ==> seed_start <= (#[trigger] l[i]).base_start,
                forall|i: int| 0 <= i < r.len() && !right_used@[i] ==> seed_start <= (#[trigger] r[i]).base_start,
                is_left ==> idx < l.len() && l[idx as int].base_start == seed_start && !lu0[idx as int] && left_used@[idx as int],
                !is_left ==> idx < r.len() && r[idx as int].base_start == seed_start && !ru0[idx as int] && right_used@[idx as int],
                forall|i: int|
                    0 <= i < l.len() && left_used@[i] && !lu0[i] ==> within(start as int, end as int, change_view(#[trigger] l[i]),
                    ),
                forall|i: int|
                    0 <= i < r.len() && right_used@[i] && !ru0[i] ==> within(start as int, end as int, change_view(#[trigger] r[i]),
                    ),
                !has_l ==> left_used@ == lu0,
                !has_r ==> right_used@ == ru0,
                has_l ==> 0 <= gl < l.len() && left_used@[gl] && !lu0[gl],
                has_r ==> 0 <= gr < r.len() && right_used@[gr] && !ru0[gr],
                we.0 ==> 0 <= we.1 < l.len() && left_used@[we.1] && !lu0[we.1] && l[we.1].base_end == end,
                !we.0 ==> 0 <= we.1 < r.len() && right_used@[we.1] && !ru0[we.1] && r[we.1].base_end == end,
                clear_of(olds, start as int, end as int),
                !expanded ==> forall|i: int|
                    0 <= i < l.len() && !left_used@[i] ==> !overlaps(
                        start as int,
                        end as int,
                        (#[trigger] l[i]).base_start as int,
                        l[i].base_end as int,
                    ),
                !expanded ==> forall|i: int|
                    0 <= i < r.len() && !right_used@[i] ==> !overlaps(
                        start as int,
                        end as int,
                        (#[trigger] r[i]).base_start as int,
                        r[i].base_end as int,
                    ),
                count_unused(left_used@) + count_unused(right_used@) < m0,
                spans@.len() + m0 <= l.len() + r.len(),
                start == end ==> forall|i: int|
                    0 <= i < l.len() && left_used@[i] && !lu0[i] ==> (#[trigger] l[i]).base_start == start
                        && l[i].base_end == start,
                start == end ==> forall|i: int|
                    0 <= i < r.len() && right_used@[i] && !ru0[i] ==> (#[trigger] r[i]).base_start == start
                        && r[i].base_end == start,
                start < end ==> forall|i: int|
                    0 <= i < l.len() && left_used@[i] && !lu0[i] && (#[trigger] l[i]).base_start
                        == l[i].base_end ==> start < l[i].base_start < end,
                start < end ==> forall|i: int|
                    0 <= i < r.len() && right_used@[i] && !ru0[i] && (#[trigger] r[i]).base_start
                        == r[i].base_end ==> start < r[i].base_start < end,
                forall|x: int|
                    start < x < end ==> #[trigger] either_covers(l, r, left_used@, right_used@, lu0, ru0, x),
            decreases 2 * (count_unused(left_used@) + count_unused(right_used@)) + if expanded {
                1int
            } else {
                0int
            },
        {
            let ghost lu1 = left_used@;
            let ghost ru1 = right_used@;
            let ghost end1 = end;
            let ghost hl1 = has_l;
            let ghost hr1 = has_r;
            assert forall|i: int|
                0 <= i < left@.len() && !left_used@[i] implies start <= (#[trigger] left@[i]).base_start
                    && clear_of(olds, left@[i].base_start as int, left@[i].base_end as int) by {
                assert(!lu0[i]);
                assert(stat_l[i] == -1);
            }
            let (e1, w1, x1) = absorb_side(left, &mut left_used, &mut start, &mut end, &mut has_l, Ghost(olds));
            proof {
                if e1 {
                    gl = w1@;
                }
                if end != end1 {
                    we = (true, x1@);
                }
            }
            let ghost lu2 = left_used@;
            let ghost ru2 = right_used@;
            let ghost end2 = end;
            assert forall|i: int|
                0 <= i < right@.len() && !right_used@[i] implies start <= (#[trigger] right@[i]).base_start
                    && clear_of(olds, right@[i].base_start as int, right@[i].base_end as int) by {
                assert(!ru0[i]);
                assert(stat_r[i] == -1);
            }
            let (e2, w2, x2) = absorb_side(right, &mut right_used, &mut start, &mut end, &mut has_r, Ghost(olds));
            proof {
                if e2 {
                    gr = w2@;
                }
                if end != end2 {
                    we = (false, x2@);
                }
                lemma_count_unused_mono(lu1, left_used@);
                lemma_count_unused_mono(ru1, right_used@);
                if e1 {
                    assert(!lu1[w1@] && left_used@[w1@]);
                }
                if e2 {
                    assert(!ru1[w2@] && right_used@[w2@]);
                }
                assert forall|i: int|
                    0 <= i < l.len() && left_used@[i] && !lu0[i] implies within(start as int, end as int, change_view(#[trigger] l[i])) by {
                    if !lu1[i] {
                        assert(lu2[i] && !lu1[i]);
                        assert(within(start as int, end2 as int, change_view(left@[i])));
                    } else {
                        assert(within(start as int, end1 as int, change_view(l[i])));
                    }
                }
                assert forall|i: int|
                    0 <= i < r.len() && right_used@[i] && !ru0[i] implies within(start as int, end as int, change_view(#[trigger] r[i])) by {
                    if ru1[i] {
                        assert(within(start as int, end1 as int, change_view(r[i])));
                    }
                }
                if !has_l {
                    assert(!e1 && !hl1);
                    assert(left_used@ == lu2);
                }
                assert forall|x: int| start < x < end implies #[trigger] either_covers(
                    l,
                    r,
                    left_used@,
                    right_used@,
                    lu0,
                    ru0,
                    x,
                ) by {
                    if x < end1 {
                        assert(either_covers(l, r, lu1, ru1, lu0, ru0, x));
                        if newly_covers(l, lu1, lu0, x) {
                            let q = choose|q: int|
                                0 <= q < l.len() && lu1[q] && !lu0[q] && (#[trigger] l[q]).base_start < x
                                    < l[q].base_end;
                            assert(left_used@[q]);
                            assert(newly_covers(l, left_used@, lu0, x));
                        } else {
                            let q = choose|q: int|
                                0 <= q < r.len() && ru1[q] && !ru0[q] && (#[trigger] r[q]).base_start < x
                                    < r[q].base_end;
                            assert(right_used@[q]);
                            assert(newly_covers(r, right_used@, ru0, x));
                        }
                    } else if x < end2 {
                        assert(newly_covers(left@, lu2, lu1, x));
                        let q = choose|q: int|
                            0 <= q < l.len() && lu2[q] && !lu1[q] && (#[trigger] l[q]).base_start < x
                                < l[q].base_end;
                        assert(!lu0[q]);
                        assert(left_used@[q]);
                        assert(newly_covers(l, left_used@, lu0, x));
                    } else {
                        assert(newly_covers(right@, right_used@, ru2, x));
                        let q = choose|q: int|
                            0 <= q < r.len() && right_used@[q] && !ru2[q] && (#[trigger] r[q]).base_start < x
                                < r[q].base_end;
                        assert(!ru0[q]);
                        assert(newly_covers(r, right_used@, ru0, x));
                    }
                }
            }
            expanded = e1 || e2;
        }
        let sp = Span { base_start: start, base_end: end, left: has_l, right: has_r };
        let ghost k = spans@.len() as int;
        let ghost stat_l0 = stat_l;
        let ghost stat_r0 = stat_r;
        proof {
            let lu_now = left_used@;
            let ru_now = right_used@;
            stat_l = Seq::new(l.len(), |i: int| if lu_now[i] && !lu0[i] { k } else { stat_l[i] });
            stat_r = Seq::new(r.len(), |i: int| if ru_now[i] && !ru0[i] { k } else { stat_r[i] });
            lw = lw.push(if has_l { gl } else { -1 });
            rw = rw.push(if has_r { gr } else { -1 });
            sw = sw.push((is_left, idx as int));
            ew = ew.push(we);
        }
        spans.push(sp);
        proof {
            let sps = spans@;
            assert(sps.len() == k + 1);
            assert(sps[k] == sp);
            assert forall|a: int| 0 <= a < k implies sps[a] == olds[a] by {}
            assert forall|a: int, b: int|
                0 <= a < sps.len() && 0 <= b < sps.len() && a != b implies !span_overlaps(
                #[trigger] sps[a],
                #[trigger] sps[b],
            ) by {
                if a == k {
                    lemma_overlaps_symmetric(sps[b].base_start as int, sps[b].base_end as int, start as int, end as int);
                    assert(olds[b] == sps[b]);
                } else if b == k {
                    assert(olds[a] == sps[a]);
                } else {
                    assert(olds[a] == sps[a] && olds[b] == sps[b]);
                }
            }
            assert forall|i: int| 0 <= i < l.len() && #[trigger] stat_l[i] == -1 implies clear_of(
                sps,
                l[i].base_start as int,
                l[i].base_end as int,
            ) by {
                assert(!left_used@[i]);
                assert(clear_of(olds, l[i].base_start as int, l[i].base_end as int));
                assert forall|q: int| 0 <= q < sps.len() implies !overlaps(
                    (#[trigger] sps[q]).base_start as int,
                    sps[q].base_end as int,
                    l[i].base_start as int,
                    l[i].base_end as int,
                ) && l[i].base_start >= sps[q].base_start by {
                    if q < k {
                        assert(sps[q] == olds[q]);
                    }
                }
            }
            assert forall|i: int| 0 <= i < r.len() && #[trigger] stat_r[i] == -1 implies clear_of(
                sps,
                r[i].base_start as int,
                r[i].base_end as int,
            ) by {
                assert(!right_used@[i]);
                assert(clear_of(olds, r[i].base_start as int, r[i].base_end as int));
                assert forall|q: int| 0 <= q < sps.len() implies !overlaps(
                    (#[trigger] sps[q]).base_start as int,
                    sps[q].base_end as int,
                    r[i].base_start as int,
                    r[i].base_end as int,
                ) && r[i].base_start >= sps[q].base_start by {
                    if q < k {
                        assert(sps[q] == olds[q]);
                    }
                }
            }
            assert forall|k2: int| 0 <= k2 < sps.len() implies bound_witness(l, r, stat_l, stat_r, #[trigger] sps[k2], k2, sw[k2], false) by {
                if k2 < k {
                    assert(sps[k2] == olds[k2]);
                }
            }
            assert forall|k2: int| 0 <= k2 < sps.len() implies bound_witness(l, r, stat_l, stat_r, #[trigger] sps[k2], k2, ew[k2], true) by {
                if k2 < k {
                    assert(sps[k2] == olds[k2]);
                }
            }
            assert forall|k2: int| 0 <= k2 < sps.len() && (#[trigger] sps[k2]).left implies 0 <= lw[k2] < l.len() && stat_l[lw[k2]] == k2 by {
                if k2 < k {
                    assert(sps[k2] == olds[k2]);
                }
            }
            assert forall|k2: int| 0 <= k2 < sps.len() && (#[trigger] sps[k2]).right implies 0 <= rw[k2] < r.len() && stat_r[rw[k2]] == k2 by {
                if k2 < k {
                    assert(sps[k2] == olds[k2]);
                }
            }
            assert forall|i: int| 0 <= i < l.len() && #[trigger] stat_l[i] >= 0 implies sps[stat_l[i]].left && span_covers(
                sps[stat_l[i]],
                change_view(l[i]),
            ) by {
                if left_used@[i] && !lu0[i] {
                    assert(stat_l[i] == k);
                } else {
                    assert(stat_l[i] == stat_l0[i]);
                    assert(stat_l0[i] >= 0);
                    assert(sps[stat_l[i]] == olds[stat_l[i]]);
                }
            }
            assert forall|i: int| 0 <= i < r.len() && #[trigger] stat_r[i] >= 0 implies sps[stat_r[i]].right && span_covers(
                sps[stat_r[i]],
                change_view(r[i]),
            ) by {
                if right_used@[i] && !ru0[i] {
                    assert(stat_r[i] == k);
                } else {
                    assert(stat_r[i] == stat_r0[i]);
                    assert(stat_r0[i] >= 0);
                    assert(sps[stat_r[i]] == olds[stat_r[i]]);
                }
            }
            assert forall|k2: int| 0 <= k2 < sps.len() implies 0 <= (#[trigger] sps[k2]).base_start <= sps[k2].base_end <= bl by {
                if k2 < k {
                    assert(sps[k2] == olds[k2]);
                }
            }
            assert forall|k2: int, x: int|
                0 <= k2 < sps.len() && sps[k2].base_start < x < sps[k2].base_end implies #[trigger] held_covers(
                l,
                r,
                stat_l,
                stat_r,
                k2,
                x,
            ) by {
                if k2 == k {
                    assert(either_covers(l, r, left_used@, right_used@, lu0, ru0, x));
                    if newly_covers(l, left_used@, lu0, x) {
                        let q = choose|q: int|
                            0 <= q < l.len() && left_used@[q] && !lu0[q] && (#[trigger] l[q]).base_start < x
                                < l[q].base_end;
                        assert(stat_l[q] == k);
                    } else {
                        let q = choose|q: int|
                            0 <= q < r.len() && right_used@[q] && !ru0[q] && (#[trigger] r[q]).base_start < x
                                < r[q].base_end;
                        assert(stat_r[q] == k);
                    }
                } else {
                    assert(sps[k2] == olds[k2]);
                    assert(held_covers(l, r, stat_l0, stat_r0, k2, x));
                    if exists|i: int|
                        0 <= i < l.len() && stat_l0[i] == k2 && (#[trigger] l[i]).base_start < x < l[i].base_end {
                        let i = choose|i: int|
                            0 <= i < l.len() && stat_l0[i] == k2 && (#[trigger] l[i]).base_start < x
                                < l[i].base_end;
                        assert(lu0[i]);
                        assert(stat_l[i] == stat_l0[i]);
                    } else {
                        let j = choose|j: int|
                            0 <= j < r.len() && stat_r0[j] == k2 && (#[trigger] r[j]).base_start < x
                                < r[j].base_end;
                        assert(ru0[j]);
                        assert(stat_r[j] == stat_r0[j]);
                    }
                }
            }
            assert(merge_inv(l, r, bl, spans@, left_used@, right_used@, stat_l, stat_r, lw, rw, sw, ew));
        }
    }
    proof {
        assert forall|i: int| 0 <= i < l.len() implies stat_l[i] >= 0 by {
            assert(left_used@[i]);
            assert(left_used@[i] <==> stat_l[i] >= 0);
        }
        assert forall|i: int| 0 <= i < r.len() implies stat_r[i] >= 0 by {
            assert(right_used@[i]);
            assert(right_used@[i] <==> stat_r[i] >= 0);
        }
    }
    let ghost unsorted = spans@;
    let ghost la: Seq<Span> = Seq::new(l.len(), |i: int| unsorted[stat_l[i]]);
    let ghost ra: Seq<Span> = Seq::new(r.len(), |i: int| unsorted[stat_r[i]]);
    proof {
        assert forall|k2: int| 0 <= k2 < unsorted.len() implies (#[trigger] unsorted[k2]).base_start <= unsorted[k2].base_end by {}
    }
    let sorted = sort_spans(spans);
    proof {
        let s = sorted@;
        let lv = changes_view(l);
        let rv = changes_view(r);
        assert forall|kk: int| 0 <= kk < s.len() implies exists|m: int| 0 <= m < unsorted.len() && unsorted[m] == #[trigger] s[kk] by {
            assert(s.contains(s[kk]));
        }
        assert forall|kk: int| 0 <= kk < s.len() implies 0 <= (#[trigger] s[kk]).base_start <= s[kk].base_end <= bl by {
            let m = choose|m: int| 0 <= m < unsorted.len() && unsorted[m] == s[kk];
            assert(unsorted[m] == s[kk]);
        }
        assert forall|a: int, b: int| 0 <= a < s.len() && 0 <= b < s.len() && a != b implies !span_overlaps(
            #[trigger] s[a],
            #[trigger] s[b],
        ) by {
            let ma = choose|m: int| 0 <= m < unsorted.len() && unsorted[m] == s[a];
            let mb = choose|m: int| 0 <= m < unsorted.len() && unsorted[m] == s[b];
            if a < b {
                assert(key_lt(s[a], s[b]));
            } else {
                assert(key_lt(s[b], s[a]));
            }
            assert(unsorted[ma] == s[a] && unsorted[mb] == s[b]);
        }
        assert forall|i: int| 0 <= i < lv.len() implies s.contains(#[trigger] la[i]) && la[i].left && span_covers(la[i], lv[i]) by {
            assert(unsorted.contains(unsorted[stat_l[i]]));
        }
        assert forall|j: int| 0 <= j < rv.len() implies s.contains(#[trigger] ra[j]) && ra[j].right && span_covers(ra[j], rv[j]) by {
            assert(unsorted.contains(unsorted[stat_r[j]]));
        }
        assert forall|kk: int| 0 <= kk < s.len() && (#[trigger] s[kk]).left implies exists|i: int| 0 <= i < lv.len() && la[i] == s[kk] by {
            let m = choose|m: int| 0 <= m < unsorted.len() && unsorted[m] == s[kk];
            assert(unsorted[m] == s[kk]);
            let i = lw[m];
            assert(la[i] == unsorted[stat_l[i]]);
        }
        assert forall|kk: int| 0 <= kk < s.len() && (#[trigger] s[kk]).right implies exists|j: int| 0 <= j < rv.len() && ra[j] == s[kk] by {
            let m = choose|m: int| 0 <= m < unsorted.len() && unsorted[m] == s[kk];
            assert(unsorted[m] == s[kk]);
            let j = rw[m];
            assert(ra[j] == unsorted[stat_r[j]]);
        }
        assert forall|kk: int| 0 <= kk < s.len() implies starts_at(lv, rv, la, ra, #[trigger] s[kk]) by {
            let m = choose|m: int| 0 <= m < unsorted.len() && unsorted[m] == s[kk];
            assert(unsorted[m] == s[kk]);
            assert(bound_witness(l, r, stat_l, stat_r, unsorted[m], m, sw[m], false));
            let w = sw[m];
            if w.0 {
                assert(la[w.1] == unsorted[stat_l[w.1]]);
                assert(lv[w.1] == change_view(l[w.1]));
                assert(la[w.1] == s[kk] && lv[w.1].0 == s[kk].base_start);
            } else {
                assert(ra[w.1] == unsorted[stat_r[w.1]]);
                assert(rv[w.1] == change_view(r[w.1]));
                assert(ra[w.1] == s[kk] && rv[w.1].0 == s[kk].base_start);
            }
        }
        assert forall|kk: int| 0 <= kk < s.len() implies ends_at(lv, rv, la, ra, #[trigger] s[kk]) by {
            let m = choose|m: int| 0 <= m < unsorted.len() && unsorted[m] == s[kk];
            assert(unsorted[m] == s[kk]);
            assert(bound_witness(l, r, stat_l, stat_r, unsorted[m], m, ew[m], true));
            let w = ew[m];
            if w.0 {
                assert(la[w.1] == unsorted[stat_l[w.1]]);
                assert(lv[w.1] == change_view(l[w.1]));
                assert(la[w.1] == s[kk] && lv[w.1].1 == s[kk].base_end);
            } else {
                assert(ra[w.1] == unsorted[stat_r[w.1]]);
                assert(rv[w.1] == change_view(r[w.1]));
                assert(ra[w.1] == s[kk] && rv[w.1].1 == s[kk].base_end);
            }
        }
        assert forall|i: int| 0 <= i < lv.len() implies empty_inside(lv[i], #[trigger] la[i]) by {
            assert(lv[i] == change_view(l[i]));
        }
        assert forall|j: int| 0 <= j < rv.len() implies empty_inside(rv[j], #[trigger] ra[j]) by {
            assert(rv[j] == change_view(r[j]));
        }
        assert forall|kk: int, x: int|
            0 <= kk < s.len() && s[kk].base_start < x < s[kk].base_end implies #[trigger] point_held(
            lv,
            rv,
            la,
            ra,
            s[kk],
            x,
        ) by {
            let m = choose|m: int| 0 <= m < unsorted.len() && unsorted[m] == s[kk];
            assert(unsorted[m] == s[kk]);
            assert(held_covers(l, r, stat_l, stat_r, m, x));
            if exists|i: int| 0 <= i < l.len() && stat_l[i] == m && (#[trigger] l[i]).base_start < x < l[i].base_end {
                let i = choose|i: int|
                    0 <= i < l.len() && stat_l[i] == m && (#[trigger] l[i]).base_start < x < l[i].base_end;
                assert(la[i] == s[kk] && lv[i] == change_view(l[i]));
            } else {
                let j = choose|j: int|
                    0 <= j < r.len() && stat_r[j] == m && (#[trigger] r[j]).base_start < x < r[j].base_end;
                assert(ra[j] == s[kk] && rv[j] == change_view(r[j]));
            }
        }
        assert forall|i: int, j: int|
            0 <= i < lv.len() && 0 <= j < lv.len() && #[trigger] overlaps(lv[i].0, lv[i].1, lv[j].0, lv[j].1)
                implies la[i] == la[j] by {
            if stat_l[i] != stat_l[j] {
                assert(lv[i] == change_view(l[i]) && lv[j] == change_view(l[j]));
                lemma_disjoint_holders(unsorted[stat_l[i]], unsorted[stat_l[j]], lv[i], lv[j]);
            }
        }
        assert forall|i: int, j: int|
            0 <= i < lv.len() && 0 <= j < rv.len() && #[trigger] overlaps(lv[i].0, lv[i].1, rv[j].0, rv[j].1)
                implies la[i] == ra[j] by {
            if stat_l[i] != stat_r[j] {
                assert(lv[i] == change_view(l[i]) && rv[j] == change_view(r[j]));
                lemma_disjoint_holders(unsorted[stat_l[i]], unsorted[stat_r[j]], lv[i], rv[j]);
            }
        }
        assert forall|i: int, j: int|
            0 <= i < rv.len() && 0 <= j < rv.len() && #[trigger] overlaps(rv[i].0, rv[i].1, rv[j].0, rv[j].1)
                implies ra[i] == ra[j] by {
            if stat_r[i] != stat_r[j] {
                assert(rv[i] == change_view(r[i]) && rv[j] == change_view(r[j]));
                lemma_disjoint_holders(unsorted[stat_r[i]], unsorted[stat_r[j]], rv[i], rv[j]);
            }
        }
    }
    (sorted, Ghost(la), Ghost(ra))
}


/// A hunk before numbering: its kind and its base, left and right lines.
pub struct Block {
    pub kind: HunkKind,
    pub base: Seq<Seq<char>>,
    pub left: Seq<Seq<char>>,
    pub right: Seq<Seq<char>>,
}

/// The unchanged hunk for base lines `p..q`, if that range is not empty.
pub open spec fn gap_blocks(base: Seq<Seq<char>>, p: int, q: int) -> Seq<Block> {
    if p < q {
        let b = base.subrange(p, q);
        seq![Block { kind: HunkKind::Unchanged, base: b, left: b, right: b }]
    } else {
        Seq::empty()
    }
}

/// The hunk for a span: a side that changed the span brings its own lines
/// for it, a side that did not keeps the base lines.
pub open spec fn span_block(
    base: Seq<Seq<char>>,
    ours: Seq<Seq<char>>,
    theirs: Seq<Seq<char>>,
    lops: Seq<EditOp>,
    rops: Seq<EditOp>,
    sp: Span,
) -> Block {
    let b = base.subrange(sp.base_start as int, sp.base_end as int);
    let l = if sp.left {
        side_lines(ours, lops, sp.base_start as int, sp.base_end as int)
    } else {
        b
    };
    let r = if sp.right {
        side_lines(theirs, rops, sp.base_start as int, sp.base_end as int)
    } else {
        b
    };
    Block { kind: classify_spec(sp.left, sp.right, l, r), base: b, left: l, right: r }
}

/// A hunk is emitted unless it is unchanged and empty.
pub open spec fn emitted(b: Block) -> Seq<Block> {
    if b.kind == HunkKind::Unchanged && b.base.len() == 0 {
        Seq::empty()
    } else {
        seq![b]
    }
}

/// The hunks for the spans `spans` from base line `pos` on: before each
/// span the unchanged lines since the previous one, then the span; after the
/// last, the unchanged rest of the base.
pub open spec fn blocks_from(
    base: Seq<Seq<char>>,
    ours: Seq<Seq<char>>,
    theirs: Seq<Seq<char>>,
    lops: Seq<EditOp>,
    rops: Seq<EditOp>,
    spans: Seq<Span>,
    pos: int,
) -> Seq<Block>
    decreases spans.len(),
{
    if spans.len() == 0 {
        gap_blocks(base, pos, base.len() as int)
    } else {
        let sp = spans[0];
        gap_blocks(base, pos, sp.base_start as int) + emitted(
            span_block(base, ours, theirs, lops, rops, sp),
        ) + blocks_from(base, ours, theirs, lops, rops, spans.drop_first(), sp.base_end as int)
    }
}

/// The number of actionable (not unchanged) hunks.
pub open spec fn count_actionable(bs: Seq<Block>) -> nat
    decreases bs.len(),
{
    if bs.len() == 0 {
        0
    } else {
        count_actionable(bs.drop_last()) + if bs.last().kind == HunkKind::Unchanged {
            0nat
        } else {
            1nat
        }
    }
}

/// The hunk for a block: actionable hunks are numbered from 0 in order,
/// and each side's line operations are its line diff against the base.
pub open spec fn hunk_of(bs: Seq<Block>, i: int) -> HunkView {
    let b = bs[i];
    HunkView {
        id: if b.kind == HunkKind::Unchanged {
            None
        } else {
            Some(count_actionable(bs.take(i)) as u32)
        },
        kind: b.kind,
        base: b.base,
        left: b.left,
        right: b.right,
        left_ops: line_diff_spec(b.base, b.left),
        right_ops: line_diff_spec(b.base, b.right),
    }
}

pub open spec fn hunks_of(bs: Seq<Block>) -> Seq<HunkView> {
    Seq::new(bs.len(), |i: int| hunk_of(bs, i))
}

proof fn lemma_count_actionable_push(bs: Seq<Block>, b: Block)
    ensures
        count_actionable(bs.push(b)) == count_actionable(bs) + if b.kind == HunkKind::Unchanged {
            0nat
        } else {
            1nat
        },
{
    assert(bs.push(b).drop_last() =~= bs);
}

proof fn lemma_count_actionable_le(bs: Seq<Block>)
    ensures
        count_actionable(bs) <= bs.len(),
    decreases bs.len(),
{
    if bs.len() > 0 {
        lemma_count_actionable_le(bs.drop_last());
    }
}

fn emit(
    hunks: &mut Vec<Hunk>,
    next_id: &mut u32,
    kind: HunkKind,
    base_lines: Vec<String>,
    left_lines: Vec<String>,
    right_lines: Vec<String>,
)
    requires
        kind != HunkKind::Unchanged ==> *old(next_id) < u32::MAX,
    ensures
        ({
            let b = Block {
                kind,
                base: base_lines.deep_view(),
                left: left_lines.deep_view(),
                right: right_lines.deep_view(),
            };
            if kind == HunkKind::Unchanged && base_lines@.len() == 0 {
                &&& final(hunks)@ == old(hunks)@
                &&& *final(next_id) == *old(next_id)
            } else {
                &&& final(hunks)@.len() == old(hunks)@.len() + 1
                &&& forall|i: int| 0 <= i < old(hunks)@.len() ==> final(hunks)@[i] == old(hunks)@[i]
                &&& final(hunks)@.last()@ == (HunkView {
                    id: if kind == HunkKind::Unchanged {
                        None
                    } else {
                        Some(*old(next_id))
                    },
                    kind: b.kind,
                    base: b.base,
                    left: b.left,
                    right: b.right,
                    left_ops: line_diff_spec(b.base, b.left),
                    right_ops: line_diff_spec(b.base, b.right),
                })
                &&& *final(next_id) == *old(next_id) + if kind == HunkKind::Unchanged {
                    0int
                } else {
                    1int
                }
            }
        }),
{
    if kind == HunkKind::Unchanged && base_lines.len() == 0 {
        return;
    }
    let id = if kind == HunkKind::Unchanged {
        None
    } else {
        let id = *next_id;
        *next_id = *next_id + 1;
        Some(id)
    };
    let left_line_ops = line_diff(base_lines.as_slice(), left_lines.as_slice());
    let right_line_ops = line_diff(base_lines.as_slice(), right_lines.as_slice());
    hunks.push(Hunk { id, kind, base_lines, left_lines, right_lines, left_line_ops, right_line_ops });
}


proof fn lemma_spans_separated(s: Seq<Span>, bl: int, a: int, b: int)
    requires
        forall|i: int, j: int| 0 <= i < j < s.len() ==> key_lt(#[trigger] s[i], #[trigger] s[j]),
        forall|k: int| 0 <= k < s.len() ==> 0 <= (#[trigger] s[k]).base_start <= s[k].base_end <= bl,
        forall|x: int, y: int|
            0 <= x < s.len() && 0 <= y < s.len() && x != y ==> !span_overlaps(
                #[trigger] s[x],
                #[trigger] s[y],
            ),
        0 <= a < b < s.len(),
    ensures
        s[a].base_end <= s[b].base_start,
{
    assert(key_lt(s[a], s[b]));
    assert(!span_overlaps(s[a], s[b]));
    assert(s[a].base_start <= s[a].base_end);
    assert(s[b].base_start <= s[b].base_end);
}

proof fn lemma_hunks_of_push(bs: Seq<Block>, b: Block)
    ensures
        hunks_of(bs.push(b)) == hunks_of(bs).push(hunk_of(bs.push(b), bs.len() as int)),
{
    let n = bs.push(b);
    assert forall|i: int| 0 <= i < bs.len() implies hunk_of(n, i) == hunk_of(bs, i) by {
        assert(n.take(i) =~= bs.take(i));
        assert(n[i] == bs[i]);
    }
    assert(hunks_of(n) =~= hunks_of(bs).push(hunk_of(n, bs.len() as int)));
}

proof fn lemma_emitted_push(bs: Seq<Block>, b: Block, hv: Seq<HunkView>, next_id: nat)
    requires
        hv == hunks_of(bs),
        next_id == count_actionable(bs),
    ensures
        (b.kind == HunkKind::Unchanged && b.base.len() == 0) ==> bs + emitted(b) == bs,
        !(b.kind == HunkKind::Unchanged && b.base.len() == 0) ==> {
            &&& bs + emitted(b) == bs.push(b)
            &&& hunks_of(bs + emitted(b)) == hv.push(
                HunkView {
                    id: if b.kind == HunkKind::Unchanged {
                        None
                    } else {
                        Some(next_id as u32)
                    },
                    kind: b.kind,
                    base: b.base,
                    left: b.left,
                    right: b.right,
                    left_ops: line_diff_spec(b.base, b.left),
                    right_ops: line_diff_spec(b.base, b.right),
                },
            )
        },
        count_actionable(bs + emitted(b)) == next_id + if b.kind == HunkKind::Unchanged {
            0nat
        } else {
            1nat
        },
{
    if b.kind == HunkKind::Unchanged && b.base.len() == 0 {
        assert(bs + emitted(b) =~= bs);
    } else {
        assert(bs + emitted(b) =~= bs.push(b));
        lemma_hunks_of_push(bs, b);
        assert(bs.push(b).take(bs.len() as int) =~= bs);
        lemma_count_actionable_push(bs, b);
    }
}

/// The hunks of a three-way merge, given the edit scripts from `base` to
/// `ours` (`left_ops`) and from `base` to `theirs` (`right_ops`): the base
/// ranges that each side changes are grouped into spans (see
/// [`spans_valid`]), each span becomes one hunk classified by which sides
/// changed it and how, and the base lines between spans become unchanged
/// hunks.
pub fn build_hunks_lockstep(
    base: &[String],
    ours: &[String],
    theirs: &[String],
    left_ops: &[EditOp],
    right_ops: &[EditOp],
) -> (hunks: Vec<Hunk>)
    requires
        ops_valid(left_ops@, base@.len() as int, ours@.len() as int),
        ops_valid(right_ops@, base@.len() as int, theirs@.len() as int),
        left_ops@.len() + right_ops@.len() < u32::MAX,
        base@.len() < usize::MAX,
    ensures
        exists|s: Seq<Span>, la: Seq<Span>, ra: Seq<Span>|
            spans_valid(changes_of(left_ops@), changes_of(right_ops@), base@.len() as int, s, la, ra)
                && hunks_view(hunks@) == hunks_of(
                blocks_from(
                    base.deep_view(),
                    ours.deep_view(),
                    theirs.deep_view(),
                    left_ops@,
                    right_ops@,
                    s,
                    0,
                ),
            ),
        hunks_laws(base.deep_view(), hunks_view(hunks@)),
        actionable_before(hunks_view(hunks@), hunks@.len() as int) < u32::MAX,
        equal_runs_match(left_ops@, base.deep_view(), ours.deep_view()) ==> flatten(
            hunk_sides(hunks_view(hunks@), true),
        ) == ours.deep_view(),
        equal_runs_match(right_ops@, base.deep_view(), theirs.deep_view()) ==> flatten(
            hunk_sides(hunks_view(hunks@), false),
        ) == theirs.deep_view(),
{
    let bl = base.len();
    proof {
        lemma_ops_bounds(left_ops@, base@.len() as int, ours@.len() as int);
        lemma_ops_bounds(right_ops@, base@.len() as int, theirs@.len() as int);
        lemma_changes_of_bounds(left_ops@, base@.len() as int);
        lemma_changes_of_bounds(right_ops@, base@.len() as int);
    }
    let left_changes = collect_changes(left_ops);
    let right_changes = collect_changes(right_ops);
    proof {
        assert forall|i: int| 0 <= i < left_changes@.len() implies 0 <= (#[trigger] left_changes@[i]).base_start <= left_changes@[i].base_end <= bl by {
            assert(changes_view(left_changes@)[i] == change_view(left_changes@[i]));
        }
        assert forall|i: int| 0 <= i < right_changes@.len() implies 0 <= (#[trigger] right_changes@[i]).base_start <= right_changes@[i].base_end <= bl by {
            assert(changes_view(right_changes@)[i] == change_view(right_changes@[i]));
        }
    }
    let (spans, Ghost(la), Ghost(ra)) = merge_spans(left_changes.as_slice(), right_changes.as_slice(), Ghost(bl as int));
    let ghost b = base.deep_view();
    let ghost o = ours.deep_view();
    let ghost t = theirs.deep_view();
    let ghost s = spans@;
    let ghost all = blocks_from(b, o, t, left_ops@, right_ops@, s, 0);
    let mut hunks: Vec<Hunk> = Vec::new();
    let mut next_id: u32 = 0;
    let mut pos: usize = 0;
    let mut idx: usize = 0;
    let ghost mut done: Seq<Block> = Seq::empty();
    assert(s.skip(0) =~= s);
    while idx < spans.len()
        invariant
            b == base.deep_view(),
            o == ours.deep_view(),
            t == theirs.deep_view(),
            s == spans@,
            bl == base@.len(),
            all == blocks_from(b, o, t, left_ops@, right_ops@, s, 0),
            spans_valid(changes_of(left_ops@), changes_of(right_ops@), bl as int, s, la, ra),
            s.len() <= left_ops@.len() + right_ops@.len(),
            left_ops@.len() + right_ops@.len() < u32::MAX,
            forall|i: int|
                0 <= i < left_ops@.len() ==> {
                    &&& 0 <= #[trigger] left_ops@[i].old_start() <= left_ops@[i].old_end() <= bl
                    &&& 0 <= left_ops@[i].new_start() <= left_ops@[i].new_end() <= ours@.len()
                },
            forall|i: int|
                0 <= i < right_ops@.len() ==> {
                    &&& 0 <= #[trigger] right_ops@[i].old_start() <= right_ops@[i].old_end() <= bl
                    &&& 0 <= right_ops@[i].new_start() <= right_ops@[i].new_end() <= theirs@.len()
                },
            idx <= s.len(),
            pos <= bl,
            forall|j: int| idx <= j < s.len() ==> pos <= (#[trigger] s[j]).base_start,
            done + blocks_from(b, o, t, left_ops@, right_ops@, s.skip(idx as int), pos as int) == all,
            hunks_view(hunks@) == hunks_of(done),
            next_id == count_actionable(done),
            next_id <= idx,
        decreases spans.len() - idx,
    {
        let sp = spans[idx];
        let ghost rest = s.skip(idx as int);
        assert(rest[0] == sp);
        assert(rest.drop_first() =~= s.skip(idx + 1));
        if pos < sp.base_start {
            let gap = copy_lines(base, pos, sp.base_start);
            let ghost gb = Block { kind: HunkKind::Unchanged, base: gap.deep_view(), left: gap.deep_view(), right: gap.deep_view() };
            proof {
                lemma_emitted_push(done, gb, hunks_view(hunks@), next_id as nat);
                assert(gap_blocks(b, pos as int, sp.base_start as int) =~= emitted(gb));
            }
            let g1 = clone_lines(gap.as_slice());
            let g2 = clone_lines(gap.as_slice());
            let ghost before = hunks@;
            emit(&mut hunks, &mut next_id, HunkKind::Unchanged, gap, g1, g2);
            proof {
                assert(hunks_view(hunks@) =~= hunks_view(before).push(hunks@.last()@));
                done = done + emitted(gb);
            }
        } else {
            assert(gap_blocks(b, pos as int, sp.base_start as int) =~= Seq::<Block>::empty());
            assert(done + Seq::<Block>::empty() =~= done);
        }
        let base_lines = copy_lines(base, sp.base_start, sp.base_end);
        let left_lines = if sp.left {
            extract_side(ours, left_ops, sp.base_start, sp.base_end)
        } else {
            clone_lines(base_lines.as_slice())
        };
        let right_lines = if sp.right {
            extract_side(theirs, right_ops, sp.base_start, sp.base_end)
        } else {
            clone_lines(base_lines.as_slice())
        };
        let kind = classify(sp.left, sp.right, left_lines.as_slice(), right_lines.as_slice());
        let ghost blk = span_block(b, o, t, left_ops@, right_ops@, sp);
        proof {
            assert(blk.base == base_lines.deep_view());
            assert(blk.left == left_lines.deep_view());
            assert(blk.right == right_lines.deep_view());
            assert(blk.kind == kind);
            lemma_emitted_push(done, blk, hunks_view(hunks@), next_id as nat);
        }
        let ghost before = hunks@;
        emit(&mut hunks, &mut next_id, kind, base_lines, left_lines, right_lines);
        proof {
            if !(blk.kind == HunkKind::Unchanged && blk.base.len() == 0) {
                assert(hunks_view(hunks@) =~= hunks_view(before).push(hunks@.last()@));
            }
            let old_done = done;
            done = done + emitted(blk);
            assert forall|j: int| idx + 1 <= j < s.len() implies sp.base_end <= (#[trigger] s[j]).base_start by {
                lemma_spans_separated(s, bl as int, idx as int, j);
            }
            let g = gap_blocks(b, pos as int, sp.base_start as int);
            assert(blocks_from(b, o, t, left_ops@, right_ops@, rest, pos as int) == g + emitted(blk)
                + blocks_from(b, o, t, left_ops@, right_ops@, s.skip(idx + 1), sp.base_end as int));
        }
        if sp.base_end > pos {
            pos = sp.base_end;
        }
        proof {
            assert(s[idx as int] == sp);
            assert(sp.base_start <= sp.base_end <= bl);
        }
        idx = idx + 1;
    }
    assert(blocks_from(b, o, t, left_ops@, right_ops@, s.skip(idx as int), pos as int) == gap_blocks(b, pos as int, bl as int));
    if pos < bl {
        let gap = copy_lines(base, pos, bl);
        let ghost gb = Block { kind: HunkKind::Unchanged, base: gap.deep_view(), left: gap.deep_view(), right: gap.deep_view() };
        proof {
            lemma_emitted_push(done, gb, hunks_view(hunks@), next_id as nat);
            assert(gap_blocks(b, pos as int, bl as int) =~= emitted(gb));
        }
        let g1 = clone_lines(gap.as_slice());
        let g2 = clone_lines(gap.as_slice());
        let ghost before = hunks@;
        emit(&mut hunks, &mut next_id, HunkKind::Unchanged, gap, g1, g2);
        proof {
            assert(hunks_view(hunks@) =~= hunks_view(before).push(hunks@.last()@));
            done = done + emitted(gb);
        }
    } else {
        assert(gap_blocks(b, pos as int, bl as int) =~= Seq::<Block>::empty());
        assert(done + Seq::<Block>::empty() =~= done);
    }
    assert(done == all);
    proof {
        assert forall|i: int, j: int| 0 <= i < j < s.len() implies (#[trigger] s[i]).base_end <= (#[trigger] s[j]).base_start by {
            lemma_spans_separated(s, bl as int, i, j);
        }
        lemma_blocks_cover(b, o, t, left_ops@, right_ops@, s, 0);
        assert(b.subrange(0, b.len() as int) =~= b);
        lemma_hunks_of_laws(b, all);
        lemma_actionable_before(all, all.len() as int);
        assert(all.take(all.len() as int) =~= all);
        lemma_blocks_panes(b, o, t, left_ops@, right_ops@, s, la, ra);
        assert(hunk_sides(hunks_view(hunks@), true) =~= block_sides(all, true));
        assert(hunk_sides(hunks_view(hunks@), false) =~= block_sides(all, false));
    }
    hunks
}


/// The lines of consecutive pieces, one after the other.
pub open spec fn flatten(parts: Seq<Seq<Seq<char>>>) -> Seq<Seq<char>>
    decreases parts.len(),
{
    if parts.len() == 0 {
        Seq::empty()
    } else {
        flatten(parts.drop_last()) + parts.last()
    }
}

proof fn lemma_flatten_single(x: Seq<Seq<char>>)
    ensures
        flatten(seq![x]) == x,
{
    let one = seq![x];
    assert(one.len() == 1);
    assert(one.drop_last() =~= Seq::<Seq<Seq<char>>>::empty());
    assert(flatten(one.drop_last()) == Seq::<Seq<char>>::empty());
    assert(one.last() == x);
    assert(Seq::<Seq<char>>::empty() + x =~= x);
}

pub proof fn lemma_flatten_concat(a: Seq<Seq<Seq<char>>>, b: Seq<Seq<Seq<char>>>)
    ensures
        flatten(a + b) == flatten(a) + flatten(b),
    decreases b.len(),
{
    if b.len() == 0 {
        assert(a + b =~= a);
    } else {
        lemma_flatten_concat(a, b.drop_last());
        assert((a + b).drop_last() =~= a + b.drop_last());
        assert(flatten(a) + flatten(b.drop_last()) + b.last() =~= flatten(a) + (flatten(
            b.drop_last(),
        ) + b.last()));
    }
}

/// The base lines of each hunk.
pub open spec fn hunk_bases(hs: Seq<HunkView>) -> Seq<Seq<Seq<char>>> {
    hs.map_values(|h: HunkView| h.base)
}

spec fn block_bases(bs: Seq<Block>) -> Seq<Seq<Seq<char>>> {
    bs.map_values(|x: Block| x.base)
}

/// The left lines (with `left`) or right lines of each hunk.
pub open spec fn hunk_sides(hs: Seq<HunkView>, left: bool) -> Seq<Seq<Seq<char>>> {
    hs.map_values(|h: HunkView| if left { h.left } else { h.right })
}

spec fn block_sides(bs: Seq<Block>, left: bool) -> Seq<Seq<Seq<char>>> {
    bs.map_values(|x: Block| if left { x.left } else { x.right })
}

spec fn side_flag(sp: Span, left: bool) -> bool {
    if left {
        sp.left
    } else {
        sp.right
    }
}

proof fn lemma_change_listed(ops: Seq<EditOp>, j: int)
    requires
        0 <= j < ops.len(),
        ops[j].is_change(),
    ensures
        exists|i: int|
            0 <= i < changes_of(ops).len() && #[trigger] changes_of(ops)[i] == (
                ops[j].old_start(),
                ops[j].old_end(),
            ),
    decreases ops.len(),
{
    let p = ops.drop_last();
    if j < ops.len() - 1 {
        assert(p[j] == ops[j]);
        lemma_change_listed(p, j);
        let i = choose|i: int| 0 <= i < changes_of(p).len() && #[trigger] changes_of(p)[i] == (
            p[j].old_start(),
            p[j].old_end(),
        );
        assert(changes_of(ops)[i] == changes_of(p)[i]);
    } else {
        assert(ops.last() == ops[j]);
        assert(changes_of(ops).last() == (ops[j].old_start(), ops[j].old_end()));
    }
}

/// A change that touches a span lies in a span that overlaps it.
proof fn lemma_touch(hs: Span, sp: Span, c: (int, int))
    requires
        span_covers(hs, c),
        c.0 <= c.1,
        empty_inside(c, hs),
        sp.base_start <= sp.base_end,
        hs.base_start <= hs.base_end,
        if sp.base_start < sp.base_end {
            c.0 < sp.base_end && sp.base_start < c.1 || (c.0 == c.1 && sp.base_start < c.0
                < sp.base_end)
        } else {
            c.0 == sp.base_start && c.1 == sp.base_start
        },
    ensures
        span_overlaps(hs, sp),
{
}

/// The spans are ordered, inside the base and pairwise apart.
#[verifier::opaque]
spec fn spans_ordered(s: Seq<Span>, bl: int) -> bool {
    &&& forall|i: int, j: int| 0 <= i < j < s.len() ==> key_lt(#[trigger] s[i], #[trigger] s[j])
    &&& forall|k: int| 0 <= k < s.len() ==> 0 <= (#[trigger] s[k]).base_start <= s[k].base_end <= bl
    &&& forall|x: int, y: int|
        0 <= x < s.len() && 0 <= y < s.len() && x != y ==> !span_overlaps(#[trigger] s[x], #[trigger] s[y])
    &&& forall|k: int| 0 <= k < s.len() ==> (#[trigger] s[k]).left || s[k].right
}

proof fn lemma_ordered(s: Seq<Span>, bl: int, i: int, j: int)
    requires
        spans_ordered(s, bl),
        0 <= i < s.len(),
        0 <= j < s.len(),
    ensures
        0 <= s[i].base_start <= s[i].base_end <= bl,
        s[i].left || s[i].right,
        i < j ==> key_lt(s[i], s[j]) && s[i].base_end <= s[j].base_start,
        i != j ==> !span_overlaps(s[i], s[j]),
{
    reveal(spans_ordered);
    if i < j {
        lemma_spans_separated(s, bl, i, j);
    }
}

/// Every change `l[i]` of one side is held by the span `h[i]` of `s`,
/// which records that side.
#[verifier::opaque]
spec fn side_held(l: Seq<(int, int)>, h: Seq<Span>, s: Seq<Span>, left: bool) -> bool {
    &&& h.len() == l.len()
    &&& forall|i: int|
        0 <= i < l.len() ==> s.contains(#[trigger] h[i]) && side_flag(h[i], left) && span_covers(h[i], l[i])
            && empty_inside(l[i], h[i]) && l[i].0 <= l[i].1
}

/// The change and the span that hold operation `j` of the script.
proof fn lemma_holder(ops: Seq<EditOp>, l: Seq<(int, int)>, h: Seq<Span>, s: Seq<Span>, left: bool, j: int) -> (r: (int, int))
    requires
        l == changes_of(ops),
        side_held(l, h, s, left),
        0 <= j < ops.len(),
        ops[j].is_change(),
    ensures
        0 <= r.0 < l.len(),
        l[r.0] == (ops[j].old_start(), ops[j].old_end()),
        0 <= r.1 < s.len(),
        s[r.1] == h[r.0],
        side_flag(h[r.0], left),
        span_covers(h[r.0], l[r.0]),
        empty_inside(l[r.0], h[r.0]),
        l[r.0].0 <= l[r.0].1,
{
    reveal(side_held);
    lemma_change_listed(ops, j);
    let i = choose|i: int| 0 <= i < l.len() && #[trigger] l[i] == (ops[j].old_start(), ops[j].old_end());
    assert(s.contains(h[i]));
    let m = choose|m: int| 0 <= m < s.len() && s[m] == h[i];
    (i, m)
}

/// No change of the side touches the base range `p..q` that lies after
/// span `idx - 1` and before span `idx`.
proof fn lemma_between_untouched(ops: Seq<EditOp>, l: Seq<(int, int)>, h: Seq<Span>, s: Seq<Span>, bl: int, left: bool, idx: int, p: int, q: int)
    requires
        l == changes_of(ops),
        side_held(l, h, s, left),
        spans_ordered(s, bl),
        0 <= idx <= s.len(),
        idx > 0 ==> p == s[idx - 1].base_end,
        idx == 0 ==> p == 0,
        idx < s.len() ==> q == s[idx].base_start,
        p < q,
    ensures
        untouched(ops, p, q),
{
    assert forall|j: int| 0 <= j < ops.len() && (#[trigger] ops[j]).is_change() implies !(ops[j].old_start() < q && p < ops[j].old_end()) by {
        let (i, m) = lemma_holder(ops, l, h, s, left, j);
        lemma_ordered(s, bl, m, m);
        if idx > 0 {
            lemma_ordered(s, bl, idx - 1, idx - 1);
        }
        if m < idx - 1 {
            lemma_ordered(s, bl, m, idx - 1);
        }
        if m > idx {
            lemma_ordered(s, bl, idx, m);
            lemma_ordered(s, bl, idx, idx);
        }
    }
}

/// No insertion of the side sits at base position `x`.
spec fn no_insert_at(ops: Seq<EditOp>, x: int) -> bool {
    forall|j: int| 0 <= j < ops.len() ==> !(#[trigger] ops[j].old_start() == x && ops[j].old_end() == x)
}

/// No span could hold an insertion at `x`.
spec fn no_holder_at(s: Seq<Span>, x: int) -> bool {
    forall|m: int|
        0 <= m < s.len() ==> !span_covers(#[trigger] s[m], (x, x)) || (s[m].base_start < s[m].base_end
            && !(s[m].base_start < x < s[m].base_end))
}

proof fn lemma_no_insert(ops: Seq<EditOp>, bl: int, nl: int, l: Seq<(int, int)>, h: Seq<Span>, s: Seq<Span>, left: bool, x: int)
    requires
        ops_valid(ops, bl, nl),
        l == changes_of(ops),
        side_held(l, h, s, left),
        no_holder_at(s, x),
    ensures
        no_insert_at(ops, x),
{
    assert forall|j: int| 0 <= j < ops.len() implies !(#[trigger] ops[j].old_start() == x && ops[j].old_end() == x) by {
        if ops[j].old_start() == x && ops[j].old_end() == x {
            assert(ops[j].nonempty());
            let (i, m) = lemma_holder(ops, l, h, s, left, j);
            assert(span_covers(s[m], (x, x)));
        }
    }
}

proof fn lemma_no_holder_end(s: Seq<Span>, bl: int, pos: int)
    requires
        spans_ordered(s, bl),
        s.len() > 0 ==> pos == s[s.len() - 1].base_end,
        s.len() == 0 ==> pos == 0,
        pos < bl,
    ensures
        no_holder_at(s, bl),
{
    assert forall|m: int| 0 <= m < s.len() implies !span_covers(#[trigger] s[m], (bl, bl)) || (s[m].base_start < s[m].base_end
        && !(s[m].base_start < bl < s[m].base_end)) by {
        lemma_ordered(s, bl, m, s.len() - 1);
        lemma_ordered(s, bl, m, m);
        lemma_ordered(s, bl, s.len() - 1, s.len() - 1);
    }
}

proof fn lemma_no_holder_start(s: Seq<Span>, bl: int, idx: int, pos: int)
    requires
        spans_ordered(s, bl),
        0 <= idx < s.len(),
        idx > 0 ==> pos == s[idx - 1].base_end,
        idx == 0 ==> pos == 0,
        pos < s[idx].base_start < s[idx].base_end,
    ensures
        no_holder_at(s, s[idx].base_start as int),
{
    let x = s[idx].base_start as int;
    assert forall|m: int| 0 <= m < s.len() implies !span_covers(#[trigger] s[m], (x, x)) || (s[m].base_start < s[m].base_end
        && !(s[m].base_start < x < s[m].base_end)) by {
        lemma_ordered(s, bl, m, idx);
        lemma_ordered(s, bl, idx, m);
        lemma_ordered(s, bl, m, m);
        if idx > 0 {
            lemma_ordered(s, bl, idx - 1, idx - 1);
        }
        if m < idx - 1 {
            lemma_ordered(s, bl, m, idx - 1);
        }
    }
}

proof fn lemma_no_holder_after(s: Seq<Span>, bl: int, idx: int)
    requires
        spans_ordered(s, bl),
        0 <= idx < s.len(),
        s[idx].base_start < s[idx].base_end,
        !(idx + 1 < s.len() && s[idx + 1].base_start == s[idx].base_end && s[idx + 1].base_end == s[idx].base_end),
    ensures
        no_holder_at(s, s[idx].base_end as int),
{
    let x = s[idx].base_end as int;
    assert forall|m: int| 0 <= m < s.len() implies !span_covers(#[trigger] s[m], (x, x)) || (s[m].base_start < s[m].base_end
        && !(s[m].base_start < x < s[m].base_end)) by {
        lemma_ordered(s, bl, m, idx);
        lemma_ordered(s, bl, idx, m);
        if m > idx + 1 {
            lemma_ordered(s, bl, idx + 1, m);
            lemma_ordered(s, bl, idx, idx + 1);
        }
        if m == idx + 1 {
            lemma_ordered(s, bl, idx, idx + 1);
            lemma_ordered(s, bl, m, m);
        }
    }
}

proof fn lemma_unflagged_span(ops: Seq<EditOp>, bl: int, nl: int, l: Seq<(int, int)>, h: Seq<Span>, s: Seq<Span>, left: bool, idx: int)
    requires
        ops_valid(ops, bl, nl),
        l == changes_of(ops),
        side_held(l, h, s, left),
        spans_ordered(s, bl),
        0 <= idx < s.len(),
        !side_flag(s[idx], left),
    ensures
        s[idx].base_start < s[idx].base_end ==> untouched(ops, s[idx].base_start as int, s[idx].base_end as int),
        s[idx].base_start == s[idx].base_end ==> no_insert_at(ops, s[idx].base_start as int),
{
    let sp = s[idx];
    lemma_ordered(s, bl, idx, idx);
    assert forall|j: int| 0 <= j < ops.len() && (#[trigger] ops[j]).is_change() implies {
        &&& (sp.base_start < sp.base_end ==> !(ops[j].old_start() < sp.base_end && sp.base_start < ops[j].old_end()))
        &&& (sp.base_start == sp.base_end ==> !(ops[j].old_start() == sp.base_start && ops[j].old_end() == sp.base_start))
    } by {
        let (i, m) = lemma_holder(ops, l, h, s, left, j);
        lemma_ordered(s, bl, m, idx);
        if sp.base_start < sp.base_end && ops[j].old_start() < sp.base_end && sp.base_start < ops[j].old_end() {
            lemma_touch(h[i], sp, l[i]);
        }
        if sp.base_start == sp.base_end && ops[j].old_start() == sp.base_start && ops[j].old_end() == sp.base_start {
            lemma_touch(h[i], sp, l[i]);
        }
    }
    if sp.base_start == sp.base_end {
        assert forall|j: int| 0 <= j < ops.len() implies !(#[trigger] ops[j].old_start() == sp.base_start && ops[j].old_end() == sp.base_start) by {
            if ops[j].old_start() == sp.base_start && ops[j].old_end() == sp.base_start {
                lemma_ops_bounds(ops, bl, nl);
                assert(ops[j].nonempty());
            }
        }
    }
}

/// Where the lines that a side shows for the base range `st..en` begin.
spec fn span_lo(ops: Seq<EditOp>, st: int, en: int, n: int) -> int {
    if st == en {
        cut(ops, st, false, n)
    } else {
        cut(ops, st, true, n)
    }
}

/// Where the lines that a side shows for the base range `st..en` end.
spec fn span_hi(ops: Seq<EditOp>, st: int, en: int, n: int) -> int {
    if st == en {
        cut(ops, st, true, n)
    } else {
        cut(ops, en, false, n)
    }
}

/// The unchanged lines before span `idx` are the side's lines from the cut
/// after the previous span to where the span's own lines begin.
#[verifier::spinoff_prover]
proof fn lemma_step_gap(
    b: Seq<Seq<char>>,
    side: Seq<Seq<char>>,
    ops: Seq<EditOp>,
    s: Seq<Span>,
    idx: int,
    left: bool,
    l: Seq<(int, int)>,
    h: Seq<Span>,
    pos: int,
)
    requires
        ops_valid(ops, b.len() as int, side.len() as int),
        equal_runs_match(ops, b, side),
        l == changes_of(ops),
        side_held(l, h, s, left),
        spans_ordered(s, b.len() as int),
        0 <= idx < s.len(),
        idx > 0 ==> pos == s[idx - 1].base_end,
        idx == 0 ==> pos == 0,
        pos <= s[idx].base_start,
    ensures
        ({
            let n = side.len() as int;
            let st = s[idx].base_start as int;
            let en = s[idx].base_end as int;
            let c0 = cut(ops, pos, !(st == pos && en == pos), n);
            let cs = span_lo(ops, st, en, n);
            &&& 0 <= c0 <= cs <= n
            &&& side.subrange(c0, cs) == b.subrange(pos, st)
        }),
{
    let n = side.len() as int;
    let bl = b.len() as int;
    let st = s[idx].base_start as int;
    let en = s[idx].base_end as int;
    lemma_ordered(s, bl, idx, idx);
    lemma_ops_bounds(ops, bl, n);
    lemma_cut_facts(ops, bl, n, pos);
    lemma_cut_facts(ops, bl, n, st);
    let c0 = cut(ops, pos, !(st == pos && en == pos), n);
    let cs = span_lo(ops, st, en, n);
    if pos < st {
        lemma_cut_order(ops, bl, n, pos, st);
        lemma_between_untouched(ops, l, h, s, bl, left, idx, pos, st);
        lemma_cut_gap(ops, b, side, pos, st);
        if st < en {
            lemma_no_holder_start(s, bl, idx, pos);
            lemma_no_insert(ops, bl, n, l, h, s, left, st);
        }
        assert(cs == cut(ops, st, false, n));
    } else {
        assert(c0 == cs);
        assert(side.subrange(c0, cs) =~= b.subrange(pos, st));
    }
}

/// The lines a side shows for span `idx`: its own lines between the cuts
/// when it changed the span, else the base lines, which it then keeps.
#[verifier::spinoff_prover]
proof fn lemma_step_span(
    b: Seq<Seq<char>>,
    side: Seq<Seq<char>>,
    ops: Seq<EditOp>,
    s: Seq<Span>,
    idx: int,
    left: bool,
    l: Seq<(int, int)>,
    h: Seq<Span>,
)
    requires
        ops_valid(ops, b.len() as int, side.len() as int),
        equal_runs_match(ops, b, side),
        l == changes_of(ops),
        side_held(l, h, s, left),
        spans_ordered(s, b.len() as int),
        0 <= idx < s.len(),
    ensures
        ({
            let n = side.len() as int;
            let st = s[idx].base_start as int;
            let en = s[idx].base_end as int;
            let cs = span_lo(ops, st, en, n);
            let ce = span_hi(ops, st, en, n);
            &&& 0 <= cs <= ce <= n
            &&& side.subrange(cs, ce) == if side_flag(s[idx], left) {
                side_lines(side, ops, st, en)
            } else {
                b.subrange(st, en)
            }
        }),
{
    let n = side.len() as int;
    let bl = b.len() as int;
    let st = s[idx].base_start as int;
    let en = s[idx].base_end as int;
    lemma_ordered(s, bl, idx, idx);
    lemma_ops_bounds(ops, bl, n);
    lemma_cut_facts(ops, bl, n, st);
    lemma_cut_facts(ops, bl, n, en);
    if st < en {
        lemma_cut_order(ops, bl, n, st, en);
    }
    let cs = span_lo(ops, st, en, n);
    let ce = span_hi(ops, st, en, n);
    if !side_flag(s[idx], left) {
        lemma_unflagged_span(ops, bl, n, l, h, s, left, idx);
        if st < en {
            lemma_cut_gap(ops, b, side, st, en);
        } else {
            assert(b.subrange(st, en) =~= Seq::<Seq<char>>::empty());
            assert(side.subrange(cs, ce) =~= Seq::<Seq<char>>::empty());
        }
    }
}

/// Where a span's lines end is where the lines after it begin.
#[verifier::spinoff_prover]
proof fn lemma_step_end(
    b: Seq<Seq<char>>,
    side: Seq<Seq<char>>,
    ops: Seq<EditOp>,
    s: Seq<Span>,
    idx: int,
    left: bool,
    l: Seq<(int, int)>,
    h: Seq<Span>,
)
    requires
        ops_valid(ops, b.len() as int, side.len() as int),
        l == changes_of(ops),
        side_held(l, h, s, left),
        spans_ordered(s, b.len() as int),
        0 <= idx < s.len(),
    ensures
        ({
            let n = side.len() as int;
            let st = s[idx].base_start as int;
            let en = s[idx].base_end as int;
            let next_empty = idx + 1 < s.len() && s[idx + 1].base_start == en && s[idx + 1].base_end
                == en;
            span_hi(ops, st, en, n) == cut(ops, en, !next_empty, n)
        }),
{
    let n = side.len() as int;
    let bl = b.len() as int;
    let st = s[idx].base_start as int;
    let en = s[idx].base_end as int;
    lemma_ordered(s, bl, idx, idx);
    let next_empty = idx + 1 < s.len() && s[idx + 1].base_start == en && s[idx + 1].base_end == en;
    lemma_cut_facts(ops, bl, n, en);
    if st < en && !next_empty {
        lemma_no_holder_after(s, bl, idx);
        lemma_no_insert(ops, bl, n, l, h, s, left, en);
    }
    if st == en && idx + 1 < s.len() {
        lemma_ordered(s, bl, idx, idx + 1);
    }
}

/// The side lines of a list of hunks joined with another.
proof fn lemma_block_sides_concat(x: Seq<Block>, y: Seq<Block>, left: bool)
    ensures
        block_sides(x + y, left) == block_sides(x, left) + block_sides(y, left),
{
    assert(block_sides(x + y, left) =~= block_sides(x, left) + block_sides(y, left));
}

/// The lines that one side shows in the hunk of a span.
proof fn lemma_block_side(
    b: Seq<Seq<char>>,
    o: Seq<Seq<char>>,
    t: Seq<Seq<char>>,
    lops: Seq<EditOp>,
    rops: Seq<EditOp>,
    sp: Span,
    left: bool,
    side: Seq<Seq<char>>,
    ops: Seq<EditOp>,
)
    requires
        side == if left { o } else { t },
        ops == if left { lops } else { rops },
    ensures
        block_sides(seq![span_block(b, o, t, lops, rops, sp)], left) == seq![
            if side_flag(sp, left) {
                side_lines(side, ops, sp.base_start as int, sp.base_end as int)
            } else {
                b.subrange(sp.base_start as int, sp.base_end as int)
            },
        ],
{
    let blk = span_block(b, o, t, lops, rops, sp);
    assert(block_sides(seq![blk], left) =~= seq![if left { blk.left } else { blk.right }]);
}

/// The side lines of the unchanged hunk for `p..q` are the base lines there.
proof fn lemma_gap_side(b: Seq<Seq<char>>, p: int, q: int, left: bool)
    requires
        0 <= p <= q <= b.len(),
    ensures
        flatten(block_sides(gap_blocks(b, p, q), left)) == b.subrange(p, q),
{
    if p < q {
        assert(block_sides(gap_blocks(b, p, q), left) =~= seq![b.subrange(p, q)]);
        lemma_flatten_single(b.subrange(p, q));
    } else {
        assert(block_sides(gap_blocks(b, p, q), left) =~= Seq::<Seq<Seq<char>>>::empty());
        assert(b.subrange(p, q) =~= Seq::<Seq<char>>::empty());
    }
}

/// After the last span, the unchanged rest of the base is the rest of the
/// side.
#[verifier::spinoff_prover]
proof fn lemma_sweep_last(
    b: Seq<Seq<char>>,
    side: Seq<Seq<char>>,
    ops: Seq<EditOp>,
    s: Seq<Span>,
    left: bool,
    l: Seq<(int, int)>,
    h: Seq<Span>,
    pos: int,
)
    requires
        ops_valid(ops, b.len() as int, side.len() as int),
        equal_runs_match(ops, b, side),
        l == changes_of(ops),
        side_held(l, h, s, left),
        spans_ordered(s, b.len() as int),
        s.len() > 0 ==> pos == s[s.len() - 1].base_end,
        s.len() == 0 ==> pos == 0,
    ensures
        0 <= pos <= b.len(),
        0 <= cut(ops, pos, true, side.len() as int) <= side.len(),
        b.subrange(pos, b.len() as int) == side.subrange(
            cut(ops, pos, true, side.len() as int),
            side.len() as int,
        ),
{
    let n = side.len() as int;
    let bl = b.len() as int;
    if s.len() > 0 {
        lemma_ordered(s, bl, s.len() - 1, s.len() - 1);
    }
    lemma_ops_bounds(ops, bl, n);
    lemma_cut_facts(ops, bl, n, pos);
    lemma_cut_facts(ops, bl, n, bl);
    if pos < bl {
        lemma_between_untouched(ops, l, h, s, bl, left, s.len() as int, pos, bl);
        lemma_cut_gap(ops, b, side, pos, bl);
        lemma_no_holder_end(s, bl, pos);
        lemma_no_insert(ops, bl, n, l, h, s, left, bl);
    } else {
        assert(side.subrange(n, n) =~= b.subrange(pos, bl));
    }
}

/// The hunks for spans `s.skip(idx)` from base line `pos` on: the gap, the
/// span, then the rest.
proof fn lemma_blocks_from_step(
    b: Seq<Seq<char>>,
    o: Seq<Seq<char>>,
    t: Seq<Seq<char>>,
    lops: Seq<EditOp>,
    rops: Seq<EditOp>,
    s: Seq<Span>,
    idx: int,
    pos: int,
)
    requires
        0 <= idx < s.len(),
        s[idx].left || s[idx].right,
    ensures
        blocks_from(b, o, t, lops, rops, s.skip(idx), pos) == gap_blocks(
            b,
            pos,
            s[idx].base_start as int,
        ) + seq![span_block(b, o, t, lops, rops, s[idx])] + blocks_from(
            b,
            o,
            t,
            lops,
            rops,
            s.skip(idx + 1),
            s[idx].base_end as int,
        ),
{
    assert(s.skip(idx)[0] == s[idx]);
    assert(s.skip(idx).drop_first() =~= s.skip(idx + 1));
}

/// The side lines of the hunks for spans `s.skip(idx)` from the end of the
/// previous span on are the side's lines from the matching cut on.
#[verifier::spinoff_prover]
#[verifier::rlimit(40)]
proof fn lemma_side_sweep(
    b: Seq<Seq<char>>,
    o: Seq<Seq<char>>,
    t: Seq<Seq<char>>,
    lops: Seq<EditOp>,
    rops: Seq<EditOp>,
    s: Seq<Span>,
    idx: int,
    left: bool,
    l: Seq<(int, int)>,
    h: Seq<Span>,
    side: Seq<Seq<char>>,
    ops: Seq<EditOp>,
)
    requires
        side == if left { o } else { t },
        ops == if left { lops } else { rops },
        ops_valid(ops, b.len() as int, side.len() as int),
        equal_runs_match(ops, b, side),
        l == changes_of(ops),
        side_held(l, h, s, left),
        spans_ordered(s, b.len() as int),
        0 <= idx <= s.len(),
    ensures
        ({
            let pos = if idx == 0 { 0 } else { s[idx - 1].base_end as int };
            let c0 = cut(ops, pos, !(idx < s.len() && s[idx].base_start == pos && s[idx].base_end == pos), side.len() as int);
            &&& 0 <= c0 <= side.len()
            &&& flatten(block_sides(blocks_from(b, o, t, lops, rops, s.skip(idx), pos), left)) == side.subrange(c0, side.len() as int)
        }),
    decreases s.len() - idx,
{
    let n = side.len() as int;
    let bl = b.len() as int;
    let pos = if idx == 0 { 0 } else { s[idx - 1].base_end as int };
    if idx > 0 {
        lemma_ordered(s, bl, idx - 1, idx - 1);
    }
    if idx == s.len() {
        assert(s.skip(idx).len() == 0);
        lemma_sweep_last(b, side, ops, s, left, l, h, pos);
        lemma_gap_side(b, pos, bl, left);
    } else {
        let sp = s[idx];
        let st = sp.base_start as int;
        let en = sp.base_end as int;
        assert(pos <= st) by {
            if idx > 0 {
                lemma_ordered(s, bl, idx - 1, idx);
            }
        }
        lemma_ordered(s, bl, idx, idx);
        lemma_side_sweep(b, o, t, lops, rops, s, idx + 1, left, l, h, side, ops);
        lemma_step_gap(b, side, ops, s, idx, left, l, h, pos);
        lemma_step_span(b, side, ops, s, idx, left, l, h);
        lemma_step_end(b, side, ops, s, idx, left, l, h);
        lemma_blocks_from_step(b, o, t, lops, rops, s, idx, pos);
        let g = gap_blocks(b, pos, st);
        let one = seq![span_block(b, o, t, lops, rops, sp)];
        let tail = blocks_from(b, o, t, lops, rops, s.skip(idx + 1), en);
        lemma_block_side(b, o, t, lops, rops, sp, left, side, ops);
        lemma_gap_side(b, pos, st, left);
        lemma_block_sides_concat(g + one, tail, left);
        lemma_block_sides_concat(g, one, left);
        let bk = if side_flag(sp, left) { side_lines(side, ops, st, en) } else { b.subrange(st, en) };
        lemma_flatten_concat(block_sides(g, left) + seq![bk], block_sides(tail, left));
        lemma_flatten_concat(block_sides(g, left), seq![bk]);
        lemma_flatten_single(bk);
        let next_empty = idx + 1 < s.len() && s[idx + 1].base_start == en && s[idx + 1].base_end == en;
        let c0 = cut(ops, pos, !(st == pos && en == pos), n);
        let cs = span_lo(ops, st, en, n);
        let c1 = cut(ops, en, !next_empty, n);
        assert(side.subrange(c0, cs) + side.subrange(cs, c1) =~= side.subrange(c0, c1));
        assert(side.subrange(c0, c1) + side.subrange(c1, n) =~= side.subrange(c0, n));
    }
}

/// From the spans that [`spans_valid`] describes, the facts the sweep over
/// one side needs.
proof fn lemma_sweep_facts(
    l: Seq<(int, int)>,
    r: Seq<(int, int)>,
    bl: int,
    s: Seq<Span>,
    la: Seq<Span>,
    ra: Seq<Span>,
)
    requires
        spans_valid(l, r, bl, s, la, ra),
        forall|i: int| 0 <= i < l.len() ==> (#[trigger] l[i]).0 <= l[i].1,
        forall|j: int| 0 <= j < r.len() ==> (#[trigger] r[j]).0 <= r[j].1,
    ensures
        spans_ordered(s, bl),
        side_held(l, la, s, true),
        side_held(r, ra, s, false),
{
    reveal(spans_ordered);
    reveal(side_held);
    assert forall|k: int| 0 <= k < s.len() implies (#[trigger] s[k]).left || s[k].right by {
        assert(starts_at(l, r, la, ra, s[k]));
        if exists|i: int| 0 <= i < l.len() && #[trigger] la[i] == s[k] && l[i].0 == s[k].base_start {
            let i = choose|i: int| 0 <= i < l.len() && #[trigger] la[i] == s[k] && l[i].0 == s[k].base_start;
            assert(la[i].left);
        } else {
            let j = choose|j: int| 0 <= j < r.len() && #[trigger] ra[j] == s[k] && r[j].0 == s[k].base_start;
            assert(ra[j].right);
        }
    }
    assert forall|i: int| 0 <= i < l.len() implies s.contains(#[trigger] la[i]) && side_flag(la[i], true)
        && span_covers(la[i], l[i]) && empty_inside(l[i], la[i]) && l[i].0 <= l[i].1 by {}
    assert forall|j: int| 0 <= j < r.len() implies s.contains(#[trigger] ra[j]) && side_flag(ra[j], false)
        && span_covers(ra[j], r[j]) && empty_inside(r[j], ra[j]) && r[j].0 <= r[j].1 by {}
}

/// The sweep starts at the first line of the side.
proof fn lemma_sweep_start(
    ops: Seq<EditOp>,
    bl: int,
    n: int,
    l: Seq<(int, int)>,
    h: Seq<Span>,
    s: Seq<Span>,
    left: bool,
)
    requires
        ops_valid(ops, bl, n),
        l == changes_of(ops),
        side_held(l, h, s, left),
        spans_ordered(s, bl),
    ensures
        cut(ops, 0, !(0 < s.len() && s[0].base_start == 0 && s[0].base_end == 0), n) == 0,
{
    lemma_cut_facts(ops, bl, n, 0);
    if !(0 < s.len() && s[0].base_start == 0 && s[0].base_end == 0) {
        assert forall|m: int| 0 <= m < s.len() implies !span_covers(#[trigger] s[m], (0, 0)) || (
        s[m].base_start < s[m].base_end && !(s[m].base_start < 0 < s[m].base_end)) by {
            lemma_ordered(s, bl, m, m);
            if m > 0 {
                lemma_ordered(s, bl, 0, m);
                lemma_ordered(s, bl, 0, 0);
            }
        }
        lemma_no_insert(ops, bl, n, l, h, s, left, 0);
    }
}

/// The hunks of valid scripts over valid spans show each side whole: the
/// left lines, in order, are `o`, and the right lines are `t`.
#[verifier::spinoff_prover]
proof fn lemma_blocks_panes(
    b: Seq<Seq<char>>,
    o: Seq<Seq<char>>,
    t: Seq<Seq<char>>,
    lops: Seq<EditOp>,
    rops: Seq<EditOp>,
    s: Seq<Span>,
    la: Seq<Span>,
    ra: Seq<Span>,
)
    requires
        ops_valid(lops, b.len() as int, o.len() as int),
        ops_valid(rops, b.len() as int, t.len() as int),
        spans_valid(changes_of(lops), changes_of(rops), b.len() as int, s, la, ra),
    ensures
        flatten(block_bases(blocks_from(b, o, t, lops, rops, s, 0))) == b,
        equal_runs_match(lops, b, o) ==> flatten(
            block_sides(blocks_from(b, o, t, lops, rops, s, 0), true),
        ) == o,
        equal_runs_match(rops, b, t) ==> flatten(
            block_sides(blocks_from(b, o, t, lops, rops, s, 0), false),
        ) == t,
{
    let bl = b.len() as int;
    let l = changes_of(lops);
    let r = changes_of(rops);
    lemma_ops_bounds(lops, bl, o.len() as int);
    lemma_ops_bounds(rops, bl, t.len() as int);
    lemma_changes_of_bounds(lops, bl);
    lemma_changes_of_bounds(rops, bl);
    assert forall|i: int| 0 <= i < l.len() implies (#[trigger] l[i]).0 <= l[i].1 by {}
    assert forall|j: int| 0 <= j < r.len() implies (#[trigger] r[j]).0 <= r[j].1 by {}
    lemma_sweep_facts(l, r, bl, s, la, ra);
    assert forall|i: int, j: int| 0 <= i < j < s.len() implies (#[trigger] s[i]).base_end <= (#[trigger] s[j]).base_start by {
        lemma_ordered(s, bl, i, j);
    }
    assert forall|k: int| 0 <= k < s.len() implies 0 <= (#[trigger] s[k]).base_start <= s[k].base_end <= bl by {
        lemma_ordered(s, bl, k, k);
    }
    lemma_blocks_cover(b, o, t, lops, rops, s, 0);
    assert(b.subrange(0, bl) =~= b);
    assert(s.skip(0) =~= s);
    if equal_runs_match(lops, b, o) {
        lemma_side_sweep(b, o, t, lops, rops, s, 0, true, l, la, o, lops);
        lemma_sweep_start(lops, bl, o.len() as int, l, la, s, true);
        assert(o.subrange(0, o.len() as int) =~= o);
    }
    if equal_runs_match(rops, b, t) {
        lemma_side_sweep(b, o, t, lops, rops, s, 0, false, r, ra, t, rops);
        lemma_sweep_start(rops, bl, t.len() as int, r, ra, s, false);
        assert(t.subrange(0, t.len() as int) =~= t);
    }
}

/// What each kind of hunk says of its lines: an unchanged hunk is not empty
/// and has the base lines on both sides; a change of one side leaves the
/// other side's lines at the base; a change both sides made alike gives
/// equal lines, a conflict unequal ones.
pub open spec fn hunk_kind_ok(h: HunkView) -> bool {
    &&& h.kind == HunkKind::Unchanged ==> h.left == h.base && h.right == h.base && h.base.len() > 0
    &&& h.kind == HunkKind::LeftChange ==> h.right == h.base
    &&& h.kind == HunkKind::RightChange ==> h.left == h.base
    &&& h.kind == HunkKind::BothSame ==> h.left == h.right
    &&& h.kind == HunkKind::Conflict ==> h.left != h.right
}

/// Unchanged hunks have no id; the actionable ones are numbered 0, 1, 2, …
/// in order.
pub open spec fn hunk_ids_ok(hs: Seq<HunkView>) -> bool {
    forall|i: int|
        0 <= i < hs.len() ==> (#[trigger] hs[i]).id == if hs[i].kind == HunkKind::Unchanged {
            None::<u32>
        } else {
            Some(actionable_before(hs, i) as u32)
        }
}

/// The number of actionable hunks before hunk `i`.
pub open spec fn actionable_before(hs: Seq<HunkView>, i: int) -> nat
    decreases i,
{
    if i <= 0 {
        0
    } else {
        actionable_before(hs, i - 1) + if hs[i - 1].kind == HunkKind::Unchanged {
            0nat
        } else {
            1nat
        }
    }
}

/// The laws of a merge's hunks: their base lines, one hunk after the
/// other, are the whole base; each hunk's lines agree with its kind; ids go
/// to actionable hunks only, in order from 0.
pub open spec fn hunks_laws(base: Seq<Seq<char>>, hs: Seq<HunkView>) -> bool {
    &&& flatten(hunk_bases(hs)) == base
    &&& forall|i: int| 0 <= i < hs.len() ==> hunk_kind_ok(#[trigger] hs[i])
    &&& hunk_ids_ok(hs)
}

spec fn block_ok(bk: Block) -> bool {
    &&& bk.kind == HunkKind::Unchanged ==> bk.left == bk.base && bk.right == bk.base && bk.base.len() > 0
    &&& bk.kind == HunkKind::LeftChange ==> bk.right == bk.base
    &&& bk.kind == HunkKind::RightChange ==> bk.left == bk.base
    &&& bk.kind == HunkKind::BothSame ==> bk.left == bk.right
    &&& bk.kind == HunkKind::Conflict ==> bk.left != bk.right
}

#[verifier::spinoff_prover]
#[verifier::rlimit(40)]
proof fn lemma_blocks_cover(
    b: Seq<Seq<char>>,
    o: Seq<Seq<char>>,
    t: Seq<Seq<char>>,
    lops: Seq<EditOp>,
    rops: Seq<EditOp>,
    s: Seq<Span>,
    pos: int,
)
    requires
        0 <= pos <= b.len(),
        forall|k: int| 0 <= k < s.len() ==> pos <= (#[trigger] s[k]).base_start <= s[k].base_end <= b.len(),
        forall|i: int, j: int| 0 <= i < j < s.len() ==> (#[trigger] s[i]).base_end <= (#[trigger] s[j]).base_start,
    ensures
        flatten(block_bases(blocks_from(b, o, t, lops, rops, s, pos))) == b.subrange(pos, b.len() as int),
        forall|i: int|
            0 <= i < blocks_from(b, o, t, lops, rops, s, pos).len() ==> block_ok(
                #[trigger] blocks_from(b, o, t, lops, rops, s, pos)[i],
            ),
    decreases s.len(),
{
    let all = blocks_from(b, o, t, lops, rops, s, pos);
    if s.len() == 0 {
        let g = gap_blocks(b, pos, b.len() as int);
        if pos < b.len() {
            assert(block_bases(g) =~= seq![b.subrange(pos, b.len() as int)]);
            lemma_flatten_single(b.subrange(pos, b.len() as int));
        } else {
            assert(block_bases(g) =~= Seq::<Seq<Seq<char>>>::empty());
            assert(b.subrange(pos, b.len() as int) =~= Seq::<Seq<char>>::empty());
        }
    } else {
        let sp = s[0];
        let rest = s.drop_first();
        let e = sp.base_end as int;
        assert forall|k: int| 0 <= k < rest.len() implies e <= (#[trigger] rest[k]).base_start <= rest[k].base_end <= b.len() by {
            assert(rest[k] == s[k + 1]);
            assert(s[0].base_end <= s[k + 1].base_start);
        }
        assert forall|i: int, j: int| 0 <= i < j < rest.len() implies (#[trigger] rest[i]).base_end <= (#[trigger] rest[j]).base_start by {
            assert(rest[i] == s[i + 1] && rest[j] == s[j + 1]);
        }
        lemma_blocks_cover(b, o, t, lops, rops, rest, e);
        let g = gap_blocks(b, pos, sp.base_start as int);
        let blk = span_block(b, o, t, lops, rops, sp);
        let em = emitted(blk);
        let r = blocks_from(b, o, t, lops, rops, rest, e);
        assert(all == g + em + r);
        assert(block_bases(all) =~= block_bases(g) + block_bases(em) + block_bases(r));
        lemma_flatten_concat(block_bases(g) + block_bases(em), block_bases(r));
        lemma_flatten_concat(block_bases(g), block_bases(em));
        let st = sp.base_start as int;
        if pos < st {
            assert(block_bases(g) =~= seq![b.subrange(pos, st)]);
            lemma_flatten_single(b.subrange(pos, st));
        } else {
            assert(block_bases(g) =~= Seq::<Seq<Seq<char>>>::empty());
            assert(b.subrange(pos, st) =~= Seq::<Seq<char>>::empty());
        }
        if blk.kind == HunkKind::Unchanged && blk.base.len() == 0 {
            assert(block_bases(em) =~= Seq::<Seq<Seq<char>>>::empty());
            assert(b.subrange(st, e) =~= Seq::<Seq<char>>::empty());
        } else {
            assert(block_bases(em) =~= seq![b.subrange(st, e)]);
            lemma_flatten_single(b.subrange(st, e));
        }
        assert(b.subrange(pos, st) + b.subrange(st, e) + b.subrange(e, b.len() as int) =~= b.subrange(pos, b.len() as int));
        assert forall|i: int| 0 <= i < all.len() implies block_ok(#[trigger] all[i]) by {
            if i < g.len() {
                assert(all[i] == g[i]);
            } else if i < g.len() + em.len() {
                assert(all[i] == em[i - g.len()]);
            } else {
                assert(all[i] == r[i - g.len() - em.len()]);
            }
        }
    }
}

proof fn lemma_hunks_of_laws(base: Seq<Seq<char>>, bs: Seq<Block>)
    requires
        flatten(block_bases(bs)) == base,
        forall|i: int| 0 <= i < bs.len() ==> block_ok(#[trigger] bs[i]),
    ensures
        hunks_laws(base, hunks_of(bs)),
{
    let hs = hunks_of(bs);
    assert(hunk_bases(hs) =~= block_bases(bs));
    assert forall|i: int| 0 <= i < hs.len() implies hunk_kind_ok(#[trigger] hs[i]) by {
        assert(block_ok(bs[i]));
    }
    assert forall|i: int| 0 <= i <= hs.len() implies actionable_before(hs, i) == count_actionable(bs.take(i)) by {
        lemma_actionable_before(bs, i);
    }
}

proof fn lemma_actionable_before(bs: Seq<Block>, i: int)
    requires
        0 <= i <= bs.len(),
    ensures
        actionable_before(hunks_of(bs), i) == count_actionable(bs.take(i)),
    decreases i,
{
    if i > 0 {
        lemma_actionable_before(bs, i - 1);
        assert(bs.take(i).drop_last() =~= bs.take(i - 1));
    } else {
        assert(bs.take(0) =~= Seq::<Block>::empty());
    }
}


/// The edit script that `similar`'s Myers diff computes from `old` to `new`.
pub uninterp spec fn myers_ops(old: Seq<Seq<char>>, new: Seq<Seq<char>>) -> Seq<EditOp>;

/// Runs `similar::algorithms::myers::diff` over the whole of `old` and
/// `new` into a `Replace` hook over a `Capture` hook, and copies each
/// captured `DiffOp` into the matching [`EditOp`]. Claimed, from those
/// sources: the result depends on the two line sequences alone (no
/// deadline is set); it is an edit script of `old` into `new` whose old
/// ranges, and new ranges, follow each other from 0 to the end, none empty
/// (Myers' `conquer` reports a non-empty common prefix, then the two
/// halves around a middle snake, or a delete and an insert, then a
/// non-empty common suffix, each at its true positions, and `Replace`
/// joins adjacent runs without moving them); an equal run pairs equal
/// elements (only elements found equal are reported as equal); no two
/// consecutive operations both change (`Replace` gathers every run of
/// deletes and inserts that no equal run separates into one operation);
/// and two equal sequences give only equal runs (the common prefix is the
/// whole sequence). Also claimed: no replacement keeps its old lines at the
/// end of its new lines. Myers' search (`find_middle_snake` and `conquer`)
/// finds a shortest edit script, and a replacement of old lines `x` by new
/// lines that end with `x` would not be shortest: inserting the lines
/// before `x` and keeping `x` equal takes fewer edits. Which script it is
/// otherwise, is left to `similar`.
///
/// `capture_diff_slices` would put similar's `Compact` hook in front of
/// `Replace`; it is not used here because its shifting swaps deletes and
/// inserts without renumbering them, so its scripts need not tile. For
/// `old = [a, b]` and `new = [b, b]` it yields a delete of old line 0 at
/// new position 1, then an equal run of old line 1 at new position 0, then
/// an insert at new position 1: the new positions run backwards, and no
/// contract above could be claimed of it.
#[verifier::external_body]
pub(crate) fn diff_ops(old: &[String], new: &[String]) -> (r: Vec<EditOp>)
    ensures
        r@ == myers_ops(old.deep_view(), new.deep_view()),
        ops_valid(r@, old@.len() as int, new@.len() as int),
        equal_runs_match(r@, old.deep_view(), new.deep_view()),
        changes_apart(r@),
        no_kept_tail(r@, old.deep_view(), new.deep_view()),
        old.deep_view() == new.deep_view() ==> forall|k: int| 0 <= k < r@.len() ==> #[trigger] r@[k] is Equal,
{
    let mut hook = similar::algorithms::Replace::new(similar::algorithms::Capture::new());
    let _ = similar::algorithms::myers::diff(&mut hook, old, 0..old.len(), new, 0..new.len());
    hook.into_inner().into_ops()
        .into_iter()
        .map(|op| match op {
            similar::DiffOp::Equal { old_index, new_index, len } => EditOp::Equal { old_index, new_index, len },
            similar::DiffOp::Delete { old_index, old_len, new_index } => EditOp::Delete { old_index, old_len, new_index },
            similar::DiffOp::Insert { old_index, new_index, new_len } => EditOp::Insert { old_index, new_index, new_len },
            similar::DiffOp::Replace { old_index, old_len, new_index, new_len } => EditOp::Replace { old_index, old_len, new_index, new_len },
        })
        .collect()
}

proof fn lemma_changes_of_none(ops: Seq<EditOp>)
    requires
        forall|k: int| 0 <= k < ops.len() ==> #[trigger] ops[k] is Equal,
    ensures
        changes_of(ops).len() == 0,
    decreases ops.len(),
{
    if ops.len() > 0 {
        assert(ops.last() == ops[ops.len() - 1]);
        lemma_changes_of_none(ops.drop_last());
    }
}

/// The kinds of the hunks for spans of which none has a left change, or
/// none a right change, or whose two sides are the same lines changed by
/// the same script.
proof fn lemma_blocks_kinds(
    b: Seq<Seq<char>>,
    o: Seq<Seq<char>>,
    t: Seq<Seq<char>>,
    lops: Seq<EditOp>,
    rops: Seq<EditOp>,
    s: Seq<Span>,
    pos: int,
    no_left: bool,
    no_right: bool,
    same: bool,
)
    requires
        no_left ==> forall|k: int| 0 <= k < s.len() ==> !(#[trigger] s[k]).left,
        no_right ==> forall|k: int| 0 <= k < s.len() ==> !(#[trigger] s[k]).right,
        same ==> o == t && lops == rops,
    ensures
        forall|i: int|
            0 <= i < blocks_from(b, o, t, lops, rops, s, pos).len() ==> {
                let k = (#[trigger] blocks_from(b, o, t, lops, rops, s, pos)[i]).kind;
                &&& no_left ==> k == HunkKind::Unchanged || k == HunkKind::RightChange
                &&& no_right ==> k == HunkKind::Unchanged || k == HunkKind::LeftChange
                &&& same ==> k != HunkKind::Conflict
            },
    decreases s.len(),
{
    let all = blocks_from(b, o, t, lops, rops, s, pos);
    if s.len() > 0 {
        let sp = s[0];
        let rest = s.drop_first();
        assert forall|k: int| 0 <= k < rest.len() implies (no_left ==> !(#[trigger] rest[k]).left) && (
        no_right ==> !rest[k].right) by {
            assert(rest[k] == s[k + 1]);
        }
        lemma_blocks_kinds(b, o, t, lops, rops, rest, sp.base_end as int, no_left, no_right, same);
        let g = gap_blocks(b, pos, sp.base_start as int);
        let em = emitted(span_block(b, o, t, lops, rops, sp));
        let r = blocks_from(b, o, t, lops, rops, rest, sp.base_end as int);
        assert(all == g + em + r);
        assert forall|i: int| 0 <= i < all.len() implies {
            let k = (#[trigger] all[i]).kind;
            &&& no_left ==> k == HunkKind::Unchanged || k == HunkKind::RightChange
            &&& no_right ==> k == HunkKind::Unchanged || k == HunkKind::LeftChange
            &&& same ==> k != HunkKind::Conflict
        } by {
            if i < g.len() {
                assert(all[i] == g[i]);
            } else if i < g.len() + em.len() {
                assert(all[i] == em[i - g.len()]);
            } else {
                assert(all[i] == r[i - g.len() - em.len()]);
            }
        }
    }
}

/// One operation with the lines that a longer replacement adds split off:
/// a replacement of `m` lines by `n > m` lines becomes an insertion of its
/// first `n - m` new lines, then a replacement of the `m` lines by its last
/// `m` new lines. Any other operation stays as it is.
pub open spec fn split_op(op: EditOp) -> Seq<EditOp> {
    match op {
        EditOp::Replace { old_index, old_len, new_index, new_len } => if old_len < new_len {
            seq![
                EditOp::Insert {
                    old_index,
                    new_index,
                    new_len: (new_len - old_len) as usize,
                },
                EditOp::Replace {
                    old_index,
                    old_len,
                    new_index: (new_index + new_len - old_len) as usize,
                    new_len: old_len,
                },
            ]
        } else {
            seq![op]
        },
        _ => seq![op],
    }
}

/// A script with [`split_op`] applied to each of its operations.
pub open spec fn split_inserts_spec(ops: Seq<EditOp>) -> Seq<EditOp>
    decreases ops.len(),
{
    if ops.len() == 0 {
        Seq::empty()
    } else {
        split_inserts_spec(ops.drop_last()) + split_op(ops.last())
    }
}

/// Consecutive operations of `ops` join up, none is empty, and each ends
/// within `usize`.
spec fn chained(ops: Seq<EditOp>) -> bool {
    &&& forall|i: int|
        0 <= i < ops.len() - 1 ==> {
            &&& #[trigger] ops[i].old_end() == ops[i + 1].old_start()
            &&& ops[i].new_end() == ops[i + 1].new_start()
        }
    &&& forall|i: int| 0 <= i < ops.len() ==> #[trigger] ops[i].nonempty()
    &&& forall|i: int| 0 <= i < ops.len() ==> #[trigger] ops[i].new_end() <= usize::MAX
}

proof fn lemma_split_op(op: EditOp)
    requires
        op.nonempty(),
        op.new_end() <= usize::MAX,
    ensures
        ({
            let x = split_op(op);
            &&& 1 <= x.len() <= 2
            &&& x[0].old_start() == op.old_start()
            &&& x[0].new_start() == op.new_start()
            &&& x.last().old_end() == op.old_end()
            &&& x.last().new_end() == op.new_end()
            &&& chained(x)
            &&& forall|k: int| 0 <= k < x.len() && (#[trigger] x[k]) is Equal ==> x[k] == op
            &&& op is Equal ==> x == seq![op]
        }),
{
    let x = split_op(op);
    assert forall|k: int| 0 <= k < x.len() implies #[trigger] x[k].nonempty() && x[k].new_end() <= usize::MAX by {}
}

/// Splitting keeps a chained script chained, with the same ends; it adds
/// no equal run and leaves an all-equal script as it is.
#[verifier::spinoff_prover]
#[verifier::rlimit(60)]
proof fn lemma_split_chain(ops: Seq<EditOp>)
    requires
        chained(ops),
    ensures
        ({
            let x = split_inserts_spec(ops);
            &&& chained(x)
            &&& ops.len() == 0 <==> x.len() == 0
            &&& ops.len() > 0 ==> {
                &&& x[0].old_start() == ops[0].old_start()
                &&& x[0].new_start() == ops[0].new_start()
                &&& x.last().old_end() == ops.last().old_end()
                &&& x.last().new_end() == ops.last().new_end()
            }
            &&& forall|k: int|
                0 <= k < x.len() && (#[trigger] x[k]) is Equal ==> exists|j: int|
                    0 <= j < ops.len() && ops[j] == x[k]
            &&& (forall|j: int| 0 <= j < ops.len() ==> (#[trigger] ops[j]) is Equal) ==> x == ops
        }),
    decreases ops.len(),
{
    if ops.len() > 0 {
        let p = ops.drop_last();
        let op = ops.last();
        assert(op == ops[ops.len() - 1]);
        assert(chained(p)) by {
            assert forall|i: int| 0 <= i < p.len() - 1 implies #[trigger] p[i].old_end() == p[i + 1].old_start()
                && p[i].new_end() == p[i + 1].new_start() by {
                assert(p[i] == ops[i] && p[i + 1] == ops[i + 1]);
            }
            assert forall|i: int| 0 <= i < p.len() implies #[trigger] p[i].nonempty() by {
                assert(p[i] == ops[i]);
            }
            assert forall|i: int| 0 <= i < p.len() implies #[trigger] p[i].new_end() <= usize::MAX by {
                assert(p[i] == ops[i]);
            }
        }
        lemma_split_chain(p);
        lemma_split_op(op);
        let a = split_inserts_spec(p);
        let y = split_op(op);
        let x = a + y;
        assert(split_inserts_spec(ops) == x);
        if p.len() > 0 {
            assert(p.last() == ops[ops.len() - 2]);
            assert(ops[ops.len() - 2].old_end() == ops[ops.len() - 1].old_start());
        }
        assert forall|i: int| 0 <= i < x.len() - 1 implies #[trigger] x[i].old_end() == x[i + 1].old_start()
            && x[i].new_end() == x[i + 1].new_start() by {
            if i < a.len() - 1 {
                assert(x[i] == a[i] && x[i + 1] == a[i + 1]);
            } else if i == a.len() - 1 {
                assert(x[i] == a.last() && x[i + 1] == y[0]);
            } else {
                assert(x[i] == y[i - a.len()] && x[i + 1] == y[i + 1 - a.len()]);
            }
        }
        assert forall|i: int| 0 <= i < x.len() implies #[trigger] x[i].nonempty() && x[i].new_end() <= usize::MAX by {
            if i < a.len() {
                assert(x[i] == a[i]);
            } else {
                assert(x[i] == y[i - a.len()]);
            }
        }
        assert forall|k: int| 0 <= k < x.len() && (#[trigger] x[k]) is Equal implies exists|j: int|
            0 <= j < ops.len() && ops[j] == x[k] by {
            if k < a.len() {
                assert(x[k] == a[k]);
                let j = choose|j: int| 0 <= j < p.len() && p[j] == a[k];
                assert(ops[j] == p[j]);
            } else {
                assert(x[k] == y[k - a.len()]);
                assert(ops[ops.len() - 1] == x[k]);
            }
        }
        if forall|j: int| 0 <= j < ops.len() ==> (#[trigger] ops[j]) is Equal {
            assert forall|j: int| 0 <= j < p.len() implies (#[trigger] p[j]) is Equal by {
                assert(p[j] == ops[j]);
            }
            assert(op is Equal);
            assert(x =~= ops);
        }
        if p.len() == 0 {
            assert(x[0] == y[0]);
        } else {
            assert(x[0] == a[0]);
            assert(p[0] == ops[0]);
        }
        assert(x.last() == y.last());
    }
}

/// Splitting keeps an edit script of `old` into `new` one, with equal
/// runs that pair equal lines; it adds no change when the script has none.
pub proof fn lemma_split_inserts(ops: Seq<EditOp>, old: Seq<Seq<char>>, new: Seq<Seq<char>>)
    requires
        ops_valid(ops, old.len() as int, new.len() as int),
        equal_runs_match(ops, old, new),
        new.len() <= usize::MAX,
    ensures
        ops_valid(split_inserts_spec(ops), old.len() as int, new.len() as int),
        equal_runs_match(split_inserts_spec(ops), old, new),
        (forall|j: int| 0 <= j < ops.len() ==> (#[trigger] ops[j]) is Equal) ==> split_inserts_spec(ops) == ops,
{
    lemma_ops_bounds(ops, old.len() as int, new.len() as int);
    assert(chained(ops)) by {
        assert forall|i: int| 0 <= i < ops.len() implies #[trigger] ops[i].new_end() <= usize::MAX by {
            assert(0 <= ops[i].old_start());
        }
    }
    lemma_split_chain(ops);
    let x = split_inserts_spec(ops);
    assert forall|k: int, t: int|
        0 <= k < x.len() && x[k] is Equal && 0 <= t < x[k].old_end() - x[k].old_start()
            implies #[trigger] run_pair_equal(old, new, x[k], t) by {
        let j = choose|j: int| 0 <= j < ops.len() && ops[j] == x[k];
        assert(run_pair_equal(old, new, ops[j], t));
    }
}

/// No replacement of `ops` keeps its old lines at the end of its new lines:
/// where it brings at least as many lines as it takes, its last new lines
/// differ from its old ones.
pub open spec fn no_kept_tail(ops: Seq<EditOp>, old: Seq<Seq<char>>, new: Seq<Seq<char>>) -> bool {
    forall|k: int|
        0 <= k < ops.len() && (#[trigger] ops[k]) is Replace && ops[k].new_end() - ops[k].new_start()
            >= ops[k].old_end() - ops[k].old_start() ==> old.subrange(ops[k].old_start(), ops[k].old_end())
            != new.subrange(
            ops[k].new_end() - (ops[k].old_end() - ops[k].old_start()),
            ops[k].new_end(),
        )
}

/// Every change of `ops` changes something: its old lines differ from its
/// new lines.
pub open spec fn changes_differ(ops: Seq<EditOp>, old: Seq<Seq<char>>, new: Seq<Seq<char>>) -> bool {
    forall|k: int|
        0 <= k < ops.len() && (#[trigger] ops[k]).is_change() ==> old.subrange(
            ops[k].old_start(),
            ops[k].old_end(),
        ) != new.subrange(ops[k].new_start(), ops[k].new_end())
}

proof fn lemma_pieces_differ(op: EditOp, old: Seq<Seq<char>>, new: Seq<Seq<char>>, u: int)
    requires
        op.nonempty(),
        op.new_end() <= usize::MAX,
        0 <= op.old_start() <= op.old_end() <= old.len(),
        0 <= op.new_start() <= op.new_end() <= new.len(),
        op is Replace && op.new_end() - op.new_start() >= op.old_end() - op.old_start() ==> old.subrange(
            op.old_start(),
            op.old_end(),
        ) != new.subrange(op.new_end() - (op.old_end() - op.old_start()), op.new_end()),
        0 <= u < split_op(op).len(),
        split_op(op)[u].is_change(),
    ensures
        old.subrange(split_op(op)[u].old_start(), split_op(op)[u].old_end()) != new.subrange(
            split_op(op)[u].new_start(),
            split_op(op)[u].new_end(),
        ),
{
    let x = split_op(op)[u];
    let a = old.subrange(x.old_start(), x.old_end());
    let c = new.subrange(x.new_start(), x.new_end());
    let m = op.old_end() - op.old_start();
    match op {
        EditOp::Replace { old_index, old_len, new_index, new_len } => {
            if old_len < new_len {
                if u == 0 {
                    assert(a.len() != c.len());
                } else {
                    assert(x.new_start() == op.new_end() - m);
                    assert(x.new_end() == op.new_end());
                }
            } else if old_len > new_len {
                assert(a.len() != c.len());
            } else {
                assert(x == op);
                assert(op.new_start() == op.new_end() - m);
            }
        },
        _ => {
            assert(x == op);
            assert(a.len() != c.len());
        },
    }
}

/// Each operation of a split script is a piece of an operation of the
/// script.
proof fn lemma_split_pieces(ops: Seq<EditOp>)
    ensures
        forall|k: int|
            0 <= k < split_inserts_spec(ops).len() ==> exists|j: int, u: int|
                0 <= j < ops.len() && 0 <= u < split_op(ops[j]).len() && #[trigger] split_inserts_spec(ops)[k]
                    == split_op(ops[j])[u],
    decreases ops.len(),
{
    if ops.len() > 0 {
        let p = ops.drop_last();
        lemma_split_pieces(p);
        let a = split_inserts_spec(p);
        let y = split_op(ops.last());
        let x = a + y;
        assert(split_inserts_spec(ops) == x);
        assert forall|k: int| 0 <= k < x.len() implies exists|j: int, u: int|
            0 <= j < ops.len() && 0 <= u < split_op(ops[j]).len() && #[trigger] x[k]
                == split_op(ops[j])[u] by {
            if k < a.len() {
                assert(x[k] == a[k]);
                let (j, u) = choose|j: int, u: int|
                    0 <= j < p.len() && 0 <= u < split_op(p[j]).len() && #[trigger] a[k] == split_op(p[j])[u];
                assert(ops[j] == p[j]);
            } else {
                assert(x[k] == y[k - a.len()]);
                assert(ops[ops.len() - 1] == ops.last());
                assert(x[k] == split_op(ops[ops.len() - 1])[k - a.len()]);
            }
        }
    }
}

/// Splitting a script none of whose replacements keeps its old lines at
/// the end of its new lines gives a script whose every change changes
/// something.
pub proof fn lemma_split_differ(ops: Seq<EditOp>, old: Seq<Seq<char>>, new: Seq<Seq<char>>)
    requires
        ops_valid(ops, old.len() as int, new.len() as int),
        no_kept_tail(ops, old, new),
        new.len() <= usize::MAX,
    ensures
        changes_differ(split_inserts_spec(ops), old, new),
{
    lemma_ops_bounds(ops, old.len() as int, new.len() as int);
    assert(chained(ops)) by {
        assert forall|i: int| 0 <= i < ops.len() implies #[trigger] ops[i].new_end() <= usize::MAX by {
            assert(0 <= ops[i].old_start());
        }
    }
    lemma_split_chain(ops);
    lemma_split_pieces(ops);
    let x = split_inserts_spec(ops);
    assert forall|k: int| 0 <= k < x.len() && (#[trigger] x[k]).is_change() implies old.subrange(
        x[k].old_start(),
        x[k].old_end(),
    ) != new.subrange(x[k].new_start(), x[k].new_end()) by {
        let (j, u) = choose|j: int, u: int|
            0 <= j < ops.len() && 0 <= u < split_op(ops[j]).len() && #[trigger] x[k] == split_op(ops[j])[u];
        assert(0 <= ops[j].old_start());
        lemma_pieces_differ(ops[j], old, new, u);
    }
}

/// [`split_op`] applied to each operation of a script.
pub fn split_inserts(ops: &[EditOp]) -> (r: Vec<EditOp>)
    requires
        forall|i: int| 0 <= i < ops@.len() ==> #[trigger] ops@[i].new_end() <= usize::MAX,
    ensures
        r@ == split_inserts_spec(ops@),
{
    let mut out: Vec<EditOp> = Vec::new();
    let mut i: usize = 0;
    assert(ops@.take(0) =~= Seq::<EditOp>::empty());
    while i < ops.len()
        invariant
            i <= ops@.len(),
            forall|j: int| 0 <= j < ops@.len() ==> #[trigger] ops@[j].new_end() <= usize::MAX,
            out@ == split_inserts_spec(ops@.take(i as int)),
        decreases ops.len() - i,
    {
        assert(ops@.take(i + 1).drop_last() =~= ops@.take(i as int));
        assert(ops@.take(i + 1).last() == ops@[i as int]);
        let op = ops[i];
        let ghost before = out@;
        assert(op.new_end() <= usize::MAX);
        match op {
            EditOp::Replace { old_index, old_len, new_index, new_len } => {
                if old_len < new_len {
                    out.push(EditOp::Insert { old_index, new_index, new_len: new_len - old_len });
                    out.push(
                        EditOp::Replace {
                            old_index,
                            old_len,
                            new_index: new_index + new_len - old_len,
                            new_len: old_len,
                        },
                    );
                } else {
                    out.push(op);
                }
            },
            _ => {
                out.push(op);
            },
        }
        assert(out@ =~= before + split_op(op));
        i = i + 1;
    }
    assert(ops@.take(ops@.len() as int) =~= ops@);
    out
}

/// The position in `ops` of the change that [`changes_of`] lists at `i`.
spec fn change_pos(ops: Seq<EditOp>, i: int) -> int
    decreases ops.len(),
{
    if ops.len() == 0 {
        0
    } else if ops.last().is_change() && i == changes_of(ops.drop_last()).len() {
        ops.len() - 1
    } else {
        change_pos(ops.drop_last(), i)
    }
}

proof fn lemma_change_pos(ops: Seq<EditOp>)
    ensures
        forall|i: int|
            0 <= i < changes_of(ops).len() ==> {
                &&& 0 <= #[trigger] change_pos(ops, i) < ops.len()
                &&& ops[change_pos(ops, i)].is_change()
                &&& changes_of(ops)[i] == (ops[change_pos(ops, i)].old_start(), ops[change_pos(
                    ops,
                    i,
                )].old_end())
            },
        forall|i: int, k: int|
            0 <= i < k < changes_of(ops).len() ==> #[trigger] change_pos(ops, i) < #[trigger] change_pos(
                ops,
                k,
            ),
    decreases ops.len(),
{
    if ops.len() > 0 {
        let p = ops.drop_last();
        lemma_change_pos(p);
        let c = changes_of(ops);
        let cp = changes_of(p);
        assert forall|i: int| 0 <= i < c.len() implies {
            &&& 0 <= #[trigger] change_pos(ops, i) < ops.len()
            &&& ops[change_pos(ops, i)].is_change()
            &&& c[i] == (ops[change_pos(ops, i)].old_start(), ops[change_pos(ops, i)].old_end())
        } by {
            if ops.last().is_change() && i == cp.len() {
                assert(ops[ops.len() - 1] == ops.last());
            } else {
                assert(change_pos(ops, i) == change_pos(p, i));
                assert(c[i] == cp[i]);
                assert(ops[change_pos(p, i)] == p[change_pos(p, i)]);
            }
        }
        assert forall|i: int, k: int| 0 <= i < k < c.len() implies #[trigger] change_pos(ops, i)
            < #[trigger] change_pos(ops, k) by {
            if ops.last().is_change() && k == cp.len() {
                assert(change_pos(ops, i) == change_pos(p, i));
            } else {
                assert(change_pos(ops, i) == change_pos(p, i));
                assert(change_pos(ops, k) == change_pos(p, k));
            }
        }
    }
}

/// The side's lines at the cuts around one change of its script: for a
/// change of a non-empty base range, exactly the change's new lines; for
/// an insertion, at least its new lines.
#[verifier::spinoff_prover]
#[verifier::rlimit(40)]
proof fn lemma_cut_at_change(ops: Seq<EditOp>, bl: int, nl: int, j: int)
    requires
        ops_valid(ops, bl, nl),
        0 <= j < ops.len(),
        ops[j].is_change(),
    ensures
        ops[j].old_start() < ops[j].old_end() ==> cut(ops, ops[j].old_start(), true, nl)
            == ops[j].new_start() && cut(ops, ops[j].old_end(), false, nl) == ops[j].new_end(),
        ops[j].old_start() == ops[j].old_end() ==> cut(ops, ops[j].old_start(), false, nl)
            <= ops[j].new_start() && ops[j].new_end() <= cut(ops, ops[j].old_start(), true, nl),
{
    lemma_ops_bounds(ops, bl, nl);
    let st = ops[j].old_start();
    let en = ops[j].old_end();
    assert forall|i: int| 0 <= i < j implies #[trigger] ops[i].old_end() <= st && ops[i].new_end()
        <= ops[j].new_start() by {
        lemma_ops_order(ops, bl, nl, i, j);
    }
    if st < en {
        lemma_first_from(ops, 0, st, true, nl);
        let f = first_from(ops, 0, st, true);
        if f < j {
            assert(ops[f].old_end() <= st);
        }
        if f > j {
            assert(before_pos(ops[j], st, true));
        }
        lemma_first_from(ops, 0, en, false, nl);
        let g = first_from(ops, 0, en, false);
        if g <= j {
            if g < j {
                assert(ops[g].old_end() <= st);
            }
            assert(before_pos(ops[g], en, false));
        }
        if g > j + 1 {
            assert(ops[j].old_end() == ops[j + 1].old_start());
            assert(before_pos(ops[j + 1], en, false));
        }
        if j + 1 < ops.len() {
            assert(ops[j].old_end() == ops[j + 1].old_start());
            assert(ops[j].new_end() == ops[j + 1].new_start());
        }
    } else {
        lemma_first_from(ops, 0, st, false, nl);
        let g = first_from(ops, 0, st, false);
        if g > j {
            assert(before_pos(ops[j], st, false));
        }
        if g < j {
            assert(ops[g].old_end() <= st);
            assert(ops[g].nonempty());
        }
        lemma_first_from(ops, 0, st, true, nl);
        let f = first_from(ops, 0, st, true);
        if f <= j {
            if f < j {
                assert(ops[f].old_end() <= st);
            }
            assert(before_pos(ops[f], st, true));
        }
        if f < ops.len() {
            lemma_ops_order(ops, bl, nl, j, f);
        }
    }
}

/// Some change `c[i]` held by `sp` holds the base position `x` strictly
/// inside its range.
spec fn held_inside(c: Seq<(int, int)>, hc: Seq<Span>, sp: Span, x: int) -> bool {
    exists|i: int| 0 <= i < c.len() && #[trigger] hc[i] == sp && c[i].0 < x < c[i].1
}

/// A span that holds changes of one side only shows, on that side, lines
/// that differ from its base lines, when every change of that side's
/// script changes something.
#[verifier::spinoff_prover]
#[verifier::rlimit(40)]
proof fn lemma_one_side_differs(
    b: Seq<Seq<char>>,
    side: Seq<Seq<char>>,
    ops: Seq<EditOp>,
    c: Seq<(int, int)>,
    hc: Seq<Span>,
    sp: Span,
)
    requires
        ops_valid(ops, b.len() as int, side.len() as int),
        changes_differ(ops, b, side),
        c == changes_of(ops),
        hc.len() == c.len(),
        sp.base_start <= sp.base_end,
        forall|i: int| 0 <= i < c.len() ==> span_covers(#[trigger] hc[i], c[i]) && empty_inside(c[i], hc[i]),
        exists|i: int| 0 <= i < c.len() && #[trigger] hc[i] == sp && c[i].0 == sp.base_start,
        forall|x: int| sp.base_start < x < sp.base_end ==> #[trigger] held_inside(c, hc, sp, x),
    ensures
        side_lines(side, ops, sp.base_start as int, sp.base_end as int) != b.subrange(
            sp.base_start as int,
            sp.base_end as int,
        ),
{
    let bl = b.len() as int;
    let n = side.len() as int;
    let st = sp.base_start as int;
    let en = sp.base_end as int;
    lemma_ops_bounds(ops, bl, n);
    lemma_change_pos(ops);
    let i0 = choose|i: int| 0 <= i < c.len() && #[trigger] hc[i] == sp && c[i].0 == sp.base_start;
    assert(span_covers(hc[i0], c[i0]) && empty_inside(c[i0], hc[i0]));
    let j = change_pos(ops, i0);
    assert(0 <= j < ops.len());
    lemma_cut_at_change(ops, bl, n, j);
    if st < en {
        let e1 = c[i0].1;
        assert(e1 > st);
        if e1 < en {
            assert(held_inside(c, hc, sp, e1));
            let i2 = choose|i: int| 0 <= i < c.len() && #[trigger] hc[i] == sp && c[i].0 < e1 < c[i].1;
            let j2 = change_pos(ops, i2);
            if i0 < i2 {
                lemma_ops_order(ops, bl, n, j, j2);
            } else if i2 < i0 {
                lemma_ops_order(ops, bl, n, j2, j);
            }
        }
        assert(ops[j].old_start() == st && ops[j].old_end() == en);
        assert(side_lines(side, ops, st, en) == side.subrange(ops[j].new_start(), ops[j].new_end()));
    } else {
        assert(ops[j].old_start() == st && ops[j].old_end() == st);
        assert(ops[j].nonempty());
        lemma_cut_facts(ops, bl, n, st);
        let sl = side_lines(side, ops, st, en);
        assert(sl.len() > 0);
        assert(b.subrange(st, en).len() == 0);
    }
}

/// A span that only one side changed shows, on that side, lines that
/// differ from its base lines.
#[verifier::spinoff_prover]
#[verifier::rlimit(40)]
proof fn lemma_span_side_differs(
    b: Seq<Seq<char>>,
    o: Seq<Seq<char>>,
    t: Seq<Seq<char>>,
    lops: Seq<EditOp>,
    rops: Seq<EditOp>,
    s: Seq<Span>,
    la: Seq<Span>,
    ra: Seq<Span>,
    k: int,
)
    requires
        ops_valid(lops, b.len() as int, o.len() as int),
        ops_valid(rops, b.len() as int, t.len() as int),
        changes_differ(lops, b, o),
        changes_differ(rops, b, t),
        spans_valid(changes_of(lops), changes_of(rops), b.len() as int, s, la, ra),
        0 <= k < s.len(),
    ensures
        s[k].left && !s[k].right ==> side_lines(o, lops, s[k].base_start as int, s[k].base_end as int)
            != b.subrange(s[k].base_start as int, s[k].base_end as int),
        !s[k].left && s[k].right ==> side_lines(t, rops, s[k].base_start as int, s[k].base_end as int)
            != b.subrange(s[k].base_start as int, s[k].base_end as int),
{
    let l = changes_of(lops);
    let r = changes_of(rops);
    let sp = s[k];
    assert(starts_at(l, r, la, ra, sp));
    if sp.left && !sp.right {
        assert forall|x: int| sp.base_start < x < sp.base_end implies #[trigger] held_inside(l, la, sp, x) by {
            assert(point_held(l, r, la, ra, s[k], x));
            if !(exists|i: int| 0 <= i < l.len() && #[trigger] la[i] == sp && l[i].0 < x < l[i].1) {
                let j = choose|j: int| 0 <= j < r.len() && #[trigger] ra[j] == sp && r[j].0 < x < r[j].1;
                assert(ra[j].right);
            }
        }
        if !(exists|i: int| 0 <= i < l.len() && #[trigger] la[i] == sp && l[i].0 == sp.base_start) {
            let j = choose|j: int| 0 <= j < r.len() && #[trigger] ra[j] == sp && r[j].0 == sp.base_start;
            assert(ra[j].right);
        }
        lemma_one_side_differs(b, o, lops, l, la, sp);
    }
    if !sp.left && sp.right {
        assert forall|x: int| sp.base_start < x < sp.base_end implies #[trigger] held_inside(r, ra, sp, x) by {
            assert(point_held(l, r, la, ra, s[k], x));
            if !(exists|j: int| 0 <= j < r.len() && #[trigger] ra[j] == sp && r[j].0 < x < r[j].1) {
                let i = choose|i: int| 0 <= i < l.len() && #[trigger] la[i] == sp && l[i].0 < x < l[i].1;
                assert(la[i].left);
            }
        }
        if !(exists|j: int| 0 <= j < r.len() && #[trigger] ra[j] == sp && r[j].0 == sp.base_start) {
            let i = choose|i: int| 0 <= i < l.len() && #[trigger] la[i] == sp && l[i].0 == sp.base_start;
            assert(la[i].left);
        }
        lemma_one_side_differs(b, t, rops, r, ra, sp);
    }
}

/// Every hunk for spans `s` is an unchanged one or the hunk of one of the
/// spans.
proof fn lemma_block_origin(
    b: Seq<Seq<char>>,
    o: Seq<Seq<char>>,
    t: Seq<Seq<char>>,
    lops: Seq<EditOp>,
    rops: Seq<EditOp>,
    s: Seq<Span>,
    pos: int,
)
    ensures
        forall|i: int|
            0 <= i < blocks_from(b, o, t, lops, rops, s, pos).len() ==> (#[trigger] blocks_from(
                b,
                o,
                t,
                lops,
                rops,
                s,
                pos,
            )[i]).kind == HunkKind::Unchanged || exists|k: int|
                0 <= k < s.len() && blocks_from(b, o, t, lops, rops, s, pos)[i] == span_block(
                    b,
                    o,
                    t,
                    lops,
                    rops,
                    #[trigger] s[k],
                ),
    decreases s.len(),
{
    let all = blocks_from(b, o, t, lops, rops, s, pos);
    if s.len() > 0 {
        let sp = s[0];
        let rest = s.drop_first();
        lemma_block_origin(b, o, t, lops, rops, rest, sp.base_end as int);
        let g = gap_blocks(b, pos, sp.base_start as int);
        let em = emitted(span_block(b, o, t, lops, rops, sp));
        let rr = blocks_from(b, o, t, lops, rops, rest, sp.base_end as int);
        assert(all == g + em + rr);
        assert forall|i: int| 0 <= i < all.len() implies (#[trigger] all[i]).kind == HunkKind::Unchanged
            || exists|k: int| 0 <= k < s.len() && all[i] == span_block(b, o, t, lops, rops, #[trigger] s[k]) by {
            if i < g.len() {
                assert(all[i] == g[i]);
            } else if i < g.len() + em.len() {
                assert(all[i] == em[i - g.len()]);
                assert(all[i] == span_block(b, o, t, lops, rops, s[0]));
            } else {
                assert(all[i] == rr[i - g.len() - em.len()]);
                if all[i].kind != HunkKind::Unchanged {
                    let k = choose|k: int| 0 <= k < rest.len() && rr[i - g.len() - em.len()] == span_block(b, o, t, lops, rops, #[trigger] rest[k]);
                    assert(rest[k] == s[k + 1]);
                }
            }
        }
    } else {
        assert forall|i: int| 0 <= i < all.len() implies (#[trigger] all[i]).kind == HunkKind::Unchanged by {}
    }
}

/// What [`build_hunks`] returns: the hunks that [`build_hunks_lockstep`]
/// builds from the Myers scripts of base to ours and base to theirs, with
/// the lines that a longer replacement adds split off as an insertion
/// before it ([`split_op`]), for spans `s` (with holders `la`, `ra`) as
/// [`spans_valid`] describes them.
pub open spec fn merge_result(
    base: Seq<Seq<char>>,
    ours: Seq<Seq<char>>,
    theirs: Seq<Seq<char>>,
    s: Seq<Span>,
    la: Seq<Span>,
    ra: Seq<Span>,
    hs: Seq<HunkView>,
) -> bool {
    let lops = split_inserts_spec(myers_ops(base, ours));
    let rops = split_inserts_spec(myers_ops(base, theirs));
    &&& changes_apart(myers_ops(base, ours))
    &&& changes_apart(myers_ops(base, theirs))
    &&& ops_valid(lops, base.len() as int, ours.len() as int)
    &&& ops_valid(rops, base.len() as int, theirs.len() as int)
    &&& equal_runs_match(lops, base, ours)
    &&& equal_runs_match(rops, base, theirs)
    &&& changes_differ(lops, base, ours)
    &&& changes_differ(rops, base, theirs)
    &&& spans_valid(changes_of(lops), changes_of(rops), base.len() as int, s, la, ra)
    &&& hs == hunks_of(blocks_from(base, ours, theirs, lops, rops, s, 0))
}

/// Law: the contract of [`build_hunks`] determines its result. Two hunk
/// lists that are both the merge of the same three line sequences are
/// equal.
pub proof fn lemma_merge_unique(
    base: Seq<Seq<char>>,
    ours: Seq<Seq<char>>,
    theirs: Seq<Seq<char>>,
    hs1: Seq<HunkView>,
    hs2: Seq<HunkView>,
)
    requires
        is_merge_of(base, ours, theirs, hs1),
        is_merge_of(base, ours, theirs, hs2),
    ensures
        hs1 == hs2,
{
    let (s1, la1, ra1) = choose|s: Seq<Span>, la: Seq<Span>, ra: Seq<Span>|
        merge_result(base, ours, theirs, s, la, ra, hs1);
    let (s2, la2, ra2) = choose|s: Seq<Span>, la: Seq<Span>, ra: Seq<Span>|
        merge_result(base, ours, theirs, s, la, ra, hs2);
    let lops = split_inserts_spec(myers_ops(base, ours));
    let rops = split_inserts_spec(myers_ops(base, theirs));
    lemma_ops_bounds(lops, base.len() as int, ours.len() as int);
    lemma_ops_bounds(rops, base.len() as int, theirs.len() as int);
    lemma_changes_of_bounds(lops, base.len() as int);
    lemma_changes_of_bounds(rops, base.len() as int);
    let l = changes_of(lops);
    let r = changes_of(rops);
    assert forall|i: int| 0 <= i < l.len() implies (#[trigger] l[i]).0 <= l[i].1 by {}
    assert forall|j: int| 0 <= j < r.len() implies (#[trigger] r[j]).0 <= r[j].1 by {}
    lemma_spans_unique(l, r, base.len() as int, s1, la1, ra1, s2, la2, ra2);
}

/// Whether `hs` is what [`build_hunks`] returns for the three line
/// sequences: the hunks of the Myers scripts for some spans as
/// [`merge_result`] describes them.
pub open spec fn is_merge_of(
    base: Seq<Seq<char>>,
    ours: Seq<Seq<char>>,
    theirs: Seq<Seq<char>>,
    hs: Seq<HunkView>,
) -> bool {
    exists|s: Seq<Span>, la: Seq<Span>, ra: Seq<Span>| merge_result(base, ours, theirs, s, la, ra, hs)
}

/// Law: a hunk that one side alone changed shows, on that side, lines
/// other than the base lines: a left change's left lines differ from its
/// base lines, and a right change's right lines differ from them.
#[verifier::spinoff_prover]
pub proof fn lemma_merge_kinds(
    base: Seq<Seq<char>>,
    ours: Seq<Seq<char>>,
    theirs: Seq<Seq<char>>,
    hs: Seq<HunkView>,
)
    requires
        is_merge_of(base, ours, theirs, hs),
    ensures
        forall|i: int|
            0 <= i < hs.len() ==> ((#[trigger] hs[i]).kind == HunkKind::LeftChange ==> hs[i].left
                != hs[i].base) && (hs[i].kind == HunkKind::RightChange ==> hs[i].right != hs[i].base),
{
    let (s, la, ra) = choose|s: Seq<Span>, la: Seq<Span>, ra: Seq<Span>|
        merge_result(base, ours, theirs, s, la, ra, hs);
    let lops = split_inserts_spec(myers_ops(base, ours));
    let rops = split_inserts_spec(myers_ops(base, theirs));
    let bs = blocks_from(base, ours, theirs, lops, rops, s, 0);
    lemma_block_origin(base, ours, theirs, lops, rops, s, 0);
    assert forall|i: int| 0 <= i < hs.len() implies ((#[trigger] hs[i]).kind == HunkKind::LeftChange
        ==> hs[i].left != hs[i].base) && (hs[i].kind == HunkKind::RightChange ==> hs[i].right
        != hs[i].base) by {
        assert(hs[i] == hunk_of(bs, i));
        if bs[i].kind != HunkKind::Unchanged {
            let k = choose|k: int| 0 <= k < s.len() && bs[i] == span_block(base, ours, theirs, lops, rops, #[trigger] s[k]);
            lemma_span_side_differs(base, ours, theirs, lops, rops, s, la, ra, k);
        }
    }
}

/// Law: the line operations of each hunk of a merge describe its sides
/// against its base: the texts of the equal and delete operations of its
/// left (right) operations are its base lines, and those of the equal and
/// insert operations are its left (right) lines.
pub proof fn lemma_merge_hunk_ops(
    base: Seq<Seq<char>>,
    ours: Seq<Seq<char>>,
    theirs: Seq<Seq<char>>,
    hs: Seq<HunkView>,
)
    requires
        is_merge_of(base, ours, theirs, hs),
    ensures
        forall|i: int|
            0 <= i < hs.len() ==> {
                &&& old_texts((#[trigger] hs[i]).left_ops) == hs[i].base
                &&& new_texts(hs[i].left_ops) == hs[i].left
                &&& old_texts(hs[i].right_ops) == hs[i].base
                &&& new_texts(hs[i].right_ops) == hs[i].right
            },
{
    let (s, la, ra) = choose|s: Seq<Span>, la: Seq<Span>, ra: Seq<Span>|
        merge_result(base, ours, theirs, s, la, ra, hs);
    let lops = split_inserts_spec(myers_ops(base, ours));
    let rops = split_inserts_spec(myers_ops(base, theirs));
    let bs = blocks_from(base, ours, theirs, lops, rops, s, 0);
    assert forall|i: int| 0 <= i < hs.len() implies {
        &&& old_texts((#[trigger] hs[i]).left_ops) == hs[i].base
        &&& new_texts(hs[i].left_ops) == hs[i].left
        &&& old_texts(hs[i].right_ops) == hs[i].base
        &&& new_texts(hs[i].right_ops) == hs[i].right
    } by {
        assert(hs[i] == hunk_of(bs, i));
        lemma_line_diff_sides(bs[i].base, bs[i].left);
        lemma_line_diff_sides(bs[i].base, bs[i].right);
    }
}

/// Law: the merge shows all three files whole. The base lines of the
/// hunks, taken in order, are `base`; their left lines are `ours`, and
/// their right lines are `theirs`.
#[verifier::spinoff_prover]
pub proof fn lemma_merge_panes(
    base: Seq<Seq<char>>,
    ours: Seq<Seq<char>>,
    theirs: Seq<Seq<char>>,
    hs: Seq<HunkView>,
)
    requires
        is_merge_of(base, ours, theirs, hs),
    ensures
        flatten(hunk_bases(hs)) == base,
        flatten(hunk_sides(hs, true)) == ours,
        flatten(hunk_sides(hs, false)) == theirs,
{
    let (s, la, ra) = choose|s: Seq<Span>, la: Seq<Span>, ra: Seq<Span>|
        merge_result(base, ours, theirs, s, la, ra, hs);
    let lops = split_inserts_spec(myers_ops(base, ours));
    let rops = split_inserts_spec(myers_ops(base, theirs));
    let bs = blocks_from(base, ours, theirs, lops, rops, s, 0);
    lemma_blocks_panes(base, ours, theirs, lops, rops, s, la, ra);
    assert(hunk_bases(hs) =~= block_bases(bs));
    assert(hunk_sides(hs, true) =~= block_sides(bs, true));
    assert(hunk_sides(hs, false) =~= block_sides(bs, false));
}

/// Three-way merge of line sequences into ordered hunks: unchanged runs,
/// changes of one side (left = ours, right = theirs), changes both sides
/// made alike, and conflicts. A missing side is passed as an empty slice.
pub fn build_hunks(base: &[String], ours: &[String], theirs: &[String]) -> (hunks: Vec<Hunk>)
    requires
        2 * base@.len() + ours@.len() + theirs@.len() < u32::MAX,
    ensures
        is_merge_of(base.deep_view(), ours.deep_view(), theirs.deep_view(), hunks_view(hunks@)),
        hunks_laws(base.deep_view(), hunks_view(hunks@)),
        actionable_before(hunks_view(hunks@), hunks@.len() as int) < u32::MAX,
        flatten(hunk_sides(hunks_view(hunks@), true)) == ours.deep_view(),
        flatten(hunk_sides(hunks_view(hunks@), false)) == theirs.deep_view(),
        forall|i: int|
            0 <= i < hunks@.len() ==> ((#[trigger] hunks_view(hunks@)[i]).kind == HunkKind::LeftChange
                ==> hunks_view(hunks@)[i].left != hunks_view(hunks@)[i].base) && (hunks_view(
                hunks@,
            )[i].kind == HunkKind::RightChange ==> hunks_view(hunks@)[i].right != hunks_view(
                hunks@,
            )[i].base),
        ours.deep_view() == base.deep_view() ==> forall|i: int|
            0 <= i < hunks@.len() ==> (#[trigger] hunks@[i]).kind == HunkKind::Unchanged
                || hunks@[i].kind == HunkKind::RightChange,
        theirs.deep_view() == base.deep_view() ==> forall|i: int|
            0 <= i < hunks@.len() ==> (#[trigger] hunks@[i]).kind == HunkKind::Unchanged
                || hunks@[i].kind == HunkKind::LeftChange,
        ours.deep_view() == theirs.deep_view() ==> forall|i: int|
            0 <= i < hunks@.len() ==> (#[trigger] hunks@[i]).kind != HunkKind::Conflict,
        ours.deep_view() == base.deep_view() && theirs.deep_view() == base.deep_view() ==> hunks@.len()
            == if base@.len() > 0 {
            1int
        } else {
            0int
        },
{
    let left_raw = diff_ops(base, ours);
    let right_raw = diff_ops(base, theirs);
    proof {
        lemma_ops_bounds(left_raw@, base@.len() as int, ours@.len() as int);
        lemma_ops_bounds(right_raw@, base@.len() as int, theirs@.len() as int);
        assert forall|i: int| 0 <= i < left_raw@.len() implies #[trigger] left_raw@[i].new_end() <= usize::MAX by {
            assert(0 <= left_raw@[i].old_start());
        }
        assert forall|i: int| 0 <= i < right_raw@.len() implies #[trigger] right_raw@[i].new_end() <= usize::MAX by {
            assert(0 <= right_raw@[i].old_start());
        }
    }
    let left_ops = split_inserts(left_raw.as_slice());
    let right_ops = split_inserts(right_raw.as_slice());
    proof {
        lemma_split_inserts(left_raw@, base.deep_view(), ours.deep_view());
        lemma_split_inserts(right_raw@, base.deep_view(), theirs.deep_view());
        lemma_split_differ(left_raw@, base.deep_view(), ours.deep_view());
        lemma_split_differ(right_raw@, base.deep_view(), theirs.deep_view());
        lemma_ops_bounds(left_ops@, base@.len() as int, ours@.len() as int);
        lemma_ops_bounds(right_ops@, base@.len() as int, theirs@.len() as int);
    }
    let hunks = build_hunks_lockstep(base, ours, theirs, left_ops.as_slice(), right_ops.as_slice());
    proof {
        let lv = left_ops@;
        let rv = right_ops@;
        let (s, la, ra) = choose|s: Seq<Span>, la: Seq<Span>, ra: Seq<Span>|
            spans_valid(changes_of(lv), changes_of(rv), base@.len() as int, s, la, ra)
                && hunks_view(hunks@) == hunks_of(
                blocks_from(base.deep_view(), ours.deep_view(), theirs.deep_view(), lv, rv, s, 0),
            );
        assert(merge_result(base.deep_view(), ours.deep_view(), theirs.deep_view(), s, la, ra, hunks_view(hunks@)));
        lemma_merge_panes(base.deep_view(), ours.deep_view(), theirs.deep_view(), hunks_view(hunks@));
        lemma_merge_kinds(base.deep_view(), ours.deep_view(), theirs.deep_view(), hunks_view(hunks@));
        let b = base.deep_view();
        let o = ours.deep_view();
        let t = theirs.deep_view();
        let no_left = o == b;
        let no_right = t == b;
        let same = o == t;
        if no_left {
            lemma_changes_of_none(lv);
            assert forall|k: int| 0 <= k < s.len() implies !(#[trigger] s[k]).left by {
                if s[k].left {
                    let i = choose|i: int| 0 <= i < changes_of(lv).len() && la[i] == s[k];
                }
            }
        }
        if no_right {
            lemma_changes_of_none(rv);
            assert forall|k: int| 0 <= k < s.len() implies !(#[trigger] s[k]).right by {
                if s[k].right {
                    let j = choose|j: int| 0 <= j < changes_of(rv).len() && ra[j] == s[k];
                }
            }
        }
        lemma_blocks_kinds(b, o, t, lv, rv, s, 0, no_left, no_right, same);
        let bs = blocks_from(b, o, t, lv, rv, s, 0);
        assert forall|i: int| 0 <= i < hunks@.len() implies (#[trigger] hunks@[i]).kind == bs[i].kind by {
            assert(hunks_view(hunks@)[i] == hunk_of(bs, i));
        }
        if no_left && no_right && s.len() > 0 {
            assert(starts_at(changes_of(lv), changes_of(rv), la, ra, s[0]));
        }
        if no_left && no_right {
            assert(s.len() == 0);
            assert(bs == gap_blocks(b, 0, b.len() as int));
        }
    }
    hunks
}

/// The lines of a file's text without the line break of each, and whether
/// the text ends with a line break: the text up to a final `\n`, split at
/// `\n`; an empty text, or a lone `\n`, has no lines.
pub open spec fn split_lines_spec(text: Seq<char>) -> (Seq<Seq<char>>, bool) {
    let trailing = ends_with_seq(text, '\n');
    let body = if trailing {
        text.drop_last()
    } else {
        text
    };
    (if body.len() == 0 {
        Seq::empty()
    } else {
        split_seq(body, '\n')
    }, trailing)
}

/// Law: splitting loses nothing. No line holds a line break, and the
/// lines joined with `\n`, followed by a `\n` when the text had a final
/// one, give the text back.
pub proof fn lemma_split_lines_roundtrip(text: Seq<char>)
    ensures
        split_lines_spec(text).1 == ends_with_seq(text, '\n'),
        forall|i: int|
            0 <= i < split_lines_spec(text).0.len() ==> !(#[trigger] split_lines_spec(text).0[i]).contains(
                '\n',
            ),
        join_seq(split_lines_spec(text).0, '\n') + (if split_lines_spec(text).1 {
            seq!['\n']
        } else {
            Seq::<char>::empty()
        }) == text,
{
    let trailing = ends_with_seq(text, '\n');
    let body = if trailing {
        text.drop_last()
    } else {
        text
    };
    if body.len() > 0 {
        lemma_split_join(body, '\n');
    } else {
        assert(join_seq(Seq::<Seq<char>>::empty(), '\n') == Seq::<char>::empty());
    }
    if trailing {
        assert(body + seq!['\n'] =~= text);
    } else {
        assert(body + Seq::<char>::empty() =~= text);
    }
}

/// Split file content into lines; return `(lines, trailing_newline)`.
pub fn split_lines(text: &str) -> (r: (Vec<String>, bool))
    ensures
        (r.0.deep_view(), r.1) == split_lines_spec(text@),
{
    let trailing_newline = ends_with_char(text, '\n');
    let n = char_count(text);
    if (trailing_newline && n == 1) || n == 0 {
        assert(text@.drop_last().len() == 0 || text@.len() == 0);
        return (Vec::new(), trailing_newline);
    }
    let mut parts = split_str(text, '\n');
    if trailing_newline {
        let ghost body = text@.drop_last();
        assert(text@ =~= body.push('\n'));
        assert(text@.drop_last() =~= body);
        assert(split_seq(text@, '\n') == split_seq(body, '\n').push(Seq::<char>::empty()));
        let ghost before = parts@;
        let ghost bd = parts.deep_view();
        assert(bd.len() == before.len());
        assert(bd.len() > 0);
        parts.pop();
        assert(parts@ =~= before.drop_last());
        assert(parts.deep_view() =~= bd.drop_last());
        assert(parts.deep_view() =~= split_seq(body, '\n'));
    }
    (parts, trailing_newline)
}

} // verus!
