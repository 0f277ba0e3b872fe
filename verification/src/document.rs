//! Building the document that the merge editor shows for a conflicted file:
//! from the three index stages when they exist, else from the conflict
//! markers of the working-tree file.
use vstd::prelude::*;
use vstd::utf8::encode_utf8;
use crate::conflict::{
    lemma_parse_markers_len, parse_markers, parse_markers_spec, regions_view, ParsedRegion, RegionView,
};
use crate::diff::{lemma_line_diff_sides, line_diff, line_diff_spec, new_texts, old_texts};
use crate::git::{Stages, stages_view};
use crate::merge3::{
    actionable_before, build_hunks, hunks_laws, is_merge_of, lemma_merge_hunk_ops,
    lemma_split_lines_roundtrip, split_lines, split_lines_spec,
};
use crate::model::{
    ConflictDocument, ConflictDocumentView, Hunk, HunkKind, HunkView, hunks_view, kind_is_blue,
};
use crate::text::{clone_lines, ends_with_char, ends_with_seq, lines_seq};

verus! {

/// The FNV-1a offset basis (64 bits).
pub const FNV_OFFSET: u64 = 0xcbf29ce484222325;

/// The FNV-1a prime (64 bits).
pub const FNV_PRIME: u64 = 0x100000001b3;

/// The 64-bit FNV-1a hash of `bytes`: start from the offset basis; for
/// each byte, xor it in and multiply by the prime, modulo 2^64.
pub open spec fn fnv1a(bytes: Seq<u8>) -> u64
    decreases bytes.len(),
{
    if bytes.len() == 0 {
        FNV_OFFSET
    } else {
        (fnv1a(bytes.drop_last()) ^ (bytes.last() as u64)).wrapping_mul(FNV_PRIME)
    }
}

/// FNV-1a of the UTF-8 bytes of `s`; sufficient for change detection (not
/// security).
pub fn simple_hash(s: &str) -> (h: u64)
    ensures
        h == fnv1a(encode_utf8(s@)),
{
    let bytes = s.as_bytes();
    let mut hash: u64 = FNV_OFFSET;
    let mut i: usize = 0;
    assert(bytes@.take(0) =~= Seq::<u8>::empty());
    while i < bytes.len()
        invariant
            i <= bytes@.len(),
            hash == fnv1a(bytes@.take(i as int)),
        decreases bytes.len() - i,
    {
        assert(bytes@.take(i + 1).drop_last() =~= bytes@.take(i as int));
        hash = (hash ^ (bytes[i] as u64)).wrapping_mul(FNV_PRIME);
        i = i + 1;
    }
    assert(bytes@.take(bytes@.len() as int) =~= bytes@);
    hash
}

/// The lowercase hexadecimal digits.
pub open spec fn hex_digits() -> Seq<char> {
    seq!['0', '1', '2', '3', '4', '5', '6', '7', '8', '9', 'a', 'b', 'c', 'd', 'e', 'f']
}

/// `n` in lowercase hexadecimal, without leading zeros (`0` for zero), as
/// `format!("{:x}", n)` writes it.
pub open spec fn hex_seq(n: nat) -> Seq<char>
    decreases n,
{
    if n < 16 {
        seq![hex_digits()[n as int]]
    } else {
        hex_seq(n / 16).push(hex_digits()[(n % 16) as int])
    }
}

fn hex_digit(d: u64) -> (s: &'static str)
    requires
        d < 16,
    ensures
        s@ == seq![hex_digits()[d as int]],
{
    let digits = "0123456789abcdef";
    proof {
        reveal_strlit("0123456789abcdef");
    }
    assert(digits@ =~= hex_digits());
    let k = d as usize;
    let s = digits.substring_char(k, k + 1);
    assert(s@ =~= seq![hex_digits()[d as int]]);
    s
}

/// `n` in lowercase hexadecimal, without leading zeros.
pub fn to_hex(n: u64) -> (r: String)
    ensures
        r@ == hex_seq(n as nat),
    decreases n,
{
    if n < 16 {
        String::from_str(hex_digit(n))
    } else {
        let mut s = to_hex(n / 16);
        s.append(hex_digit(n % 16));
        s
    }
}

/// The text that identifies the three stages for change detection:
/// `B`, NUL, the base, NUL, `O`, NUL, ours, NUL, `T`, NUL, theirs.
pub open spec fn stages_hash_input(base: Seq<char>, ours: Seq<char>, theirs: Seq<char>) -> Seq<char> {
    seq!['B', '\0'] + base + seq!['\0', 'O', '\0'] + ours + seq!['\0', 'T', '\0'] + theirs
}

fn stages_hash_text(base: &str, ours: &str, theirs: &str) -> (r: String)
    ensures
        r@ == stages_hash_input(base@, ours@, theirs@),
{
    let b = "B\0";
    let o = "\0O\0";
    let t = "\0T\0";
    proof {
        reveal_strlit("B\0");
        reveal_strlit("\0O\0");
        reveal_strlit("\0T\0");
    }
    let mut s = String::from_str(b);
    s.append(base);
    s.append(o);
    s.append(ours);
    s.append(t);
    s.append(theirs);
    assert(s@ =~= stages_hash_input(base@, ours@, theirs@));
    s
}

/// The text of an optional stage, empty when it is missing.
pub open spec fn or_empty(o: Option<Seq<char>>) -> Seq<char> {
    match o {
        Some(s) => s,
        None => Seq::empty(),
    }
}

/// The number of blue hunks (changes that do not conflict).
pub open spec fn count_blue(hs: Seq<HunkView>) -> nat
    decreases hs.len(),
{
    if hs.len() == 0 {
        0
    } else {
        count_blue(hs.drop_last()) + if kind_is_blue(hs.last().kind) {
            1nat
        } else {
            0nat
        }
    }
}

/// The number of conflicting hunks.
pub open spec fn count_conflicts(hs: Seq<HunkView>) -> nat
    decreases hs.len(),
{
    if hs.len() == 0 {
        0
    } else {
        count_conflicts(hs.drop_last()) + if hs.last().kind == HunkKind::Conflict {
            1nat
        } else {
            0nat
        }
    }
}

proof fn lemma_counts_le(hs: Seq<HunkView>)
    ensures
        count_blue(hs) <= hs.len(),
        count_conflicts(hs) <= hs.len(),
    decreases hs.len(),
{
    if hs.len() > 0 {
        lemma_counts_le(hs.drop_last());
    }
}

proof fn lemma_counts_actionable(hs: Seq<HunkView>, i: int)
    requires
        0 <= i <= hs.len(),
    ensures
        count_blue(hs.take(i)) + count_conflicts(hs.take(i)) <= actionable_before(hs, i),
    decreases i,
{
    if i > 0 {
        lemma_counts_actionable(hs, i - 1);
        assert(hs.take(i).drop_last() =~= hs.take(i - 1));
        assert(hs.take(i).last() == hs[i - 1]);
    }
}

/// The numbers of blue and of conflicting hunks, each as a `u32`
/// (modulo 2^32).
pub fn count_hunks(hunks: &[Hunk]) -> (r: (u32, u32))
    ensures
        r.0 == count_blue(hunks_view(hunks@)) as u32,
        r.1 == count_conflicts(hunks_view(hunks@)) as u32,
{
    let ghost hv = hunks_view(hunks@);
    let mut blue: usize = 0;
    let mut red: usize = 0;
    let mut i: usize = 0;
    assert(hv.take(0) =~= Seq::<HunkView>::empty());
    while i < hunks.len()
        invariant
            hv == hunks_view(hunks@),
            i <= hunks@.len(),
            blue == count_blue(hv.take(i as int)),
            red == count_conflicts(hv.take(i as int)),
        decreases hunks.len() - i,
    {
        proof {
            lemma_counts_le(hv.take(i as int));
        }
        assert(hv.take(i + 1).drop_last() =~= hv.take(i as int));
        assert(hv.take(i + 1).last() == hunks@[i as int]@);
        if hunks[i].kind.is_blue() {
            blue = blue + 1;
        }
        if hunks[i].kind.is_conflict() {
            red = red + 1;
        }
        i = i + 1;
    }
    assert(hv.take(hunks@.len() as int) =~= hv);
    (blue as u32, red as u32)
}

/// The document of three stage texts (a missing one taken as empty): the
/// three-way merge of their lines, as [`build_hunks`] computes it; the
/// numbers of blue and of conflicting hunks; the hash of the three texts;
/// and a final line break when any of the three texts has one.
pub open spec fn stages_document(
    path: Seq<char>,
    ours_label: Seq<char>,
    theirs_label: Seq<char>,
    stages: (Option<Seq<char>>, Option<Seq<char>>, Option<Seq<char>>),
    d: ConflictDocumentView,
) -> bool {
    let bt = or_empty(stages.0);
    let ot = or_empty(stages.1);
    let tt = or_empty(stages.2);
    let (b, bnl) = split_lines_spec(bt);
    let (o, onl) = split_lines_spec(ot);
    let (t, tnl) = split_lines_spec(tt);
    &&& d.path == path
    &&& d.ours_label == ours_label
    &&& d.theirs_label == theirs_label
    &&& is_merge_of(b, o, t, d.hunks)
    &&& hunks_laws(b, d.hunks)
    &&& d.change_count == count_blue(d.hunks)
    &&& d.conflict_count == count_conflicts(d.hunks)
    &&& d.content_hash == hex_seq(fnv1a(encode_utf8(stages_hash_input(bt, ot, tt))) as nat)
    &&& d.trailing_newline == (onl || tnl || bnl)
}

/// Law: a document built from stages ends with a line break exactly when
/// one of the stage texts (ours, theirs or base; a missing stage counting
/// as empty) ends with one.
#[verifier::spinoff_prover]
pub proof fn lemma_stages_trailing_newline(
    path: Seq<char>,
    ours_label: Seq<char>,
    theirs_label: Seq<char>,
    stages: (Option<Seq<char>>, Option<Seq<char>>, Option<Seq<char>>),
    d: ConflictDocumentView,
)
    requires
        stages_document(path, ours_label, theirs_label, stages, d),
    ensures
        d.trailing_newline == ((stages.1 matches Some(o) && o.len() > 0 && o.last() == '\n')
            || (stages.2 matches Some(t) && t.len() > 0 && t.last() == '\n') || (stages.0 matches Some(
            b,
        ) && b.len() > 0 && b.last() == '\n')),
{
    lemma_split_lines_roundtrip(or_empty(stages.0));
    lemma_split_lines_roundtrip(or_empty(stages.1));
    lemma_split_lines_roundtrip(or_empty(stages.2));
}

/// Law: the line operations of each hunk of a document built from stages
/// describe the hunk's sides against its base: the texts of the equal and
/// delete operations are its base lines, those of the equal and insert
/// operations its left (right) lines.
#[verifier::spinoff_prover]
pub proof fn lemma_stages_document_ops(
    path: Seq<char>,
    ours_label: Seq<char>,
    theirs_label: Seq<char>,
    stages: (Option<Seq<char>>, Option<Seq<char>>, Option<Seq<char>>),
    d: ConflictDocumentView,
)
    requires
        stages_document(path, ours_label, theirs_label, stages, d),
    ensures
        forall|i: int|
            0 <= i < d.hunks.len() ==> {
                &&& old_texts((#[trigger] d.hunks[i]).left_ops) == d.hunks[i].base
                &&& new_texts(d.hunks[i].left_ops) == d.hunks[i].left
                &&& old_texts(d.hunks[i].right_ops) == d.hunks[i].base
                &&& new_texts(d.hunks[i].right_ops) == d.hunks[i].right
            },
{
    let bt = or_empty(stages.0);
    let ot = or_empty(stages.1);
    let tt = or_empty(stages.2);
    lemma_merge_hunk_ops(split_lines_spec(bt).0, split_lines_spec(ot).0, split_lines_spec(tt).0, d.hunks);
}

fn stage_or_empty(o: &Option<String>) -> (r: String)
    ensures
        r@ == or_empty(match o {
            Some(s) => Some(s@),
            None => None,
        }),
{
    match o {
        Some(s) => s.clone(),
        None => String::new(),
    }
}

fn document_of_texts(
    path: &str,
    ours_label: String,
    theirs_label: String,
    base_text: &str,
    ours_text: &str,
    theirs_text: &str,
) -> (d: ConflictDocument)
    requires
        2 * split_lines_spec(base_text@).0.len() + split_lines_spec(ours_text@).0.len()
            + split_lines_spec(theirs_text@).0.len() < u32::MAX,
    ensures
        stages_document(
            path@,
            ours_label@,
            theirs_label@,
            (Some(base_text@), Some(ours_text@), Some(theirs_text@)),
            d@,
        ),
{
    let (base, base_nl) = split_lines(base_text);
    let (ours, ours_nl) = split_lines(ours_text);
    let (theirs, theirs_nl) = split_lines(theirs_text);
    // Prefer ours trailing newline if present, else theirs, else base.
    let trailing_newline = ours_nl || theirs_nl || base_nl;
    let hunks = build_hunks(base.as_slice(), ours.as_slice(), theirs.as_slice());
    let (change_count, conflict_count) = count_hunks(hunks.as_slice());
    proof {
        let hv = hunks_view(hunks@);
        lemma_counts_actionable(hv, hv.len() as int);
        assert(hv.take(hv.len() as int) =~= hv);
    }
    let hash_text = stages_hash_text(base_text, ours_text, theirs_text);
    let content_hash = to_hex(simple_hash(hash_text.as_str()));
    ConflictDocument {
        path: path.to_owned(),
        ours_label,
        theirs_label,
        hunks,
        change_count,
        conflict_count,
        content_hash,
        trailing_newline,
    }
}

/// The document of a conflicted file from its index stages, or `None` when
/// no stage exists (the caller then falls back to the conflict markers of
/// the working-tree file).
pub fn document_from_stages(
    path: &str,
    ours_label: String,
    theirs_label: String,
    stages: &Stages,
) -> (r: Option<ConflictDocument>)
    requires
        2 * split_lines_spec(or_empty(stages_view(*stages).0)).0.len() + split_lines_spec(
            or_empty(stages_view(*stages).1),
        ).0.len() + split_lines_spec(or_empty(stages_view(*stages).2)).0.len() < u32::MAX,
    ensures
        r is None <==> (stages.base is None && stages.ours is None && stages.theirs is None),
        r matches Some(d) ==> stages_document(
            path@,
            ours_label@,
            theirs_label@,
            stages_view(*stages),
            d@,
        ),
{
    let usable = stages.ours.is_some() || stages.theirs.is_some() || stages.base.is_some();
    if !usable {
        return None;
    }
    let base_text = stage_or_empty(&stages.base);
    let ours_text = stage_or_empty(&stages.ours);
    let theirs_text = stage_or_empty(&stages.theirs);
    let d = document_of_texts(
        path,
        ours_label,
        theirs_label,
        base_text.as_str(),
        ours_text.as_str(),
        theirs_text.as_str(),
    );
    assert(or_empty(Some(base_text@)) == or_empty(stages_view(*stages).0));
    assert(or_empty(Some(ours_text@)) == or_empty(stages_view(*stages).1));
    assert(or_empty(Some(theirs_text@)) == or_empty(stages_view(*stages).2));
    Some(d)
}

/// The lines of an optional base, empty when there is none.
pub open spec fn lines_or_empty(o: Option<Seq<Seq<char>>>) -> Seq<Seq<char>> {
    match o {
        Some(s) => s,
        None => Seq::empty(),
    }
}

/// The number of conflict regions.
pub open spec fn count_conflict_regions(rs: Seq<RegionView>) -> nat
    decreases rs.len(),
{
    if rs.len() == 0 {
        0
    } else {
        count_conflict_regions(rs.drop_last()) + if rs.last() is Conflict {
            1nat
        } else {
            0nat
        }
    }
}

/// The hunk for one parsed region: a merged region is an unchanged hunk
/// with the same lines on every side and no line operations; a conflict is
/// a conflict hunk with id `id`, its base (empty when it has none), its two
/// sides, and the line diffs of each side against the base.
pub open spec fn region_hunk(r: RegionView, id: nat) -> HunkView {
    match r {
        RegionView::Merged(l) => HunkView {
            id: None,
            kind: HunkKind::Unchanged,
            base: l,
            left: l,
            right: l,
            left_ops: Seq::empty(),
            right_ops: Seq::empty(),
        },
        RegionView::Conflict(o, t, b) => {
            let bl = lines_or_empty(b);
            HunkView {
                id: Some(id as u32),
                kind: HunkKind::Conflict,
                base: bl,
                left: o,
                right: t,
                left_ops: line_diff_spec(bl, o),
                right_ops: line_diff_spec(bl, t),
            }
        },
    }
}

/// The hunks of parsed regions, one per region, in order; the conflicts are
/// numbered 0, 1, 2, … in order.
pub open spec fn marker_hunks(rs: Seq<RegionView>) -> Seq<HunkView>
    decreases rs.len(),
{
    if rs.len() == 0 {
        Seq::empty()
    } else {
        marker_hunks(rs.drop_last()).push(region_hunk(rs.last(), count_conflict_regions(rs.drop_last())))
    }
}

/// The document of a working-tree file with conflict markers: one hunk per
/// parsed region; no blue hunks; the number of conflicts; the hash of the
/// raw text; and whether the text ends with a line break.
pub open spec fn markers_document(
    path: Seq<char>,
    ours_label: Seq<char>,
    theirs_label: Seq<char>,
    raw: Seq<char>,
) -> ConflictDocumentView {
    let hunks = marker_hunks(parse_markers_spec(raw));
    ConflictDocumentView {
        path,
        ours_label,
        theirs_label,
        hunks,
        change_count: 0,
        conflict_count: count_conflicts(hunks) as u32,
        content_hash: hex_seq(fnv1a(encode_utf8(raw)) as nat),
        trailing_newline: ends_with_seq(raw, '\n'),
    }
}

/// The line operations of the hunk of each conflict region describe its
/// sides against its base; a merged region's hunk has the same lines on
/// every side and no line operations.
proof fn lemma_marker_hunk_ops(rs: Seq<RegionView>)
    ensures
        forall|i: int|
            0 <= i < marker_hunks(rs).len() ==> {
                let h = #[trigger] marker_hunks(rs)[i];
                &&& h.kind == HunkKind::Conflict ==> {
                    &&& old_texts(h.left_ops) == h.base
                    &&& new_texts(h.left_ops) == h.left
                    &&& old_texts(h.right_ops) == h.base
                    &&& new_texts(h.right_ops) == h.right
                }
                &&& h.kind != HunkKind::Conflict ==> h.left == h.base && h.right == h.base
                    && h.left_ops.len() == 0 && h.right_ops.len() == 0
            },
    decreases rs.len(),
{
    if rs.len() > 0 {
        lemma_marker_hunk_ops(rs.drop_last());
        let hs = marker_hunks(rs);
        let prev = marker_hunks(rs.drop_last());
        assert forall|i: int| 0 <= i < hs.len() implies {
            let h = #[trigger] hs[i];
            &&& h.kind == HunkKind::Conflict ==> {
                &&& old_texts(h.left_ops) == h.base
                &&& new_texts(h.left_ops) == h.left
                &&& old_texts(h.right_ops) == h.base
                &&& new_texts(h.right_ops) == h.right
            }
            &&& h.kind != HunkKind::Conflict ==> h.left == h.base && h.right == h.base
                && h.left_ops.len() == 0 && h.right_ops.len() == 0
        } by {
            if i < prev.len() {
                assert(hs[i] == prev[i]);
            } else {
                match rs.last() {
                    RegionView::Merged(l) => {},
                    RegionView::Conflict(o, t, b) => {
                        lemma_line_diff_sides(lines_or_empty(b), o);
                        lemma_line_diff_sides(lines_or_empty(b), t);
                    },
                }
            }
        }
    }
}

/// Law: in a document built from conflict markers, the line operations of
/// each conflict hunk describe its sides against its base (the texts of
/// the equal and delete operations are its base lines, those of the equal
/// and insert operations its left, or right, lines); every other hunk has
/// the same lines on every side and no line operations.
pub proof fn lemma_markers_document_ops(
    path: Seq<char>,
    ours_label: Seq<char>,
    theirs_label: Seq<char>,
    raw: Seq<char>,
)
    ensures
        forall|i: int|
            0 <= i < markers_document(path, ours_label, theirs_label, raw).hunks.len() ==> {
                let h = #[trigger] markers_document(path, ours_label, theirs_label, raw).hunks[i];
                &&& h.kind == HunkKind::Conflict ==> {
                    &&& old_texts(h.left_ops) == h.base
                    &&& new_texts(h.left_ops) == h.left
                    &&& old_texts(h.right_ops) == h.base
                    &&& new_texts(h.right_ops) == h.right
                }
                &&& h.kind != HunkKind::Conflict ==> h.left == h.base && h.right == h.base
                    && h.left_ops.len() == 0 && h.right_ops.len() == 0
            },
{
    lemma_marker_hunk_ops(parse_markers_spec(raw));
}

proof fn lemma_marker_counts(rs: Seq<RegionView>)
    ensures
        marker_hunks(rs).len() == rs.len(),
        count_conflicts(marker_hunks(rs)) == count_conflict_regions(rs),
        count_conflict_regions(rs) <= rs.len(),
        count_blue(marker_hunks(rs)) == 0,
    decreases rs.len(),
{
    if rs.len() > 0 {
        lemma_marker_counts(rs.drop_last());
        let hs = marker_hunks(rs);
        assert(hs.drop_last() =~= marker_hunks(rs.drop_last()));
    }
}

fn region_to_hunk(r: &ParsedRegion, next_id: u32) -> (h: Hunk)
    ensures
        h@ == region_hunk(r@, next_id as nat),
{
    match r {
        ParsedRegion::Merged { lines } => {
            let base_lines = clone_lines(lines.as_slice());
            let left_lines = clone_lines(lines.as_slice());
            let right_lines = clone_lines(lines.as_slice());
            let h = Hunk {
                id: None,
                kind: HunkKind::Unchanged,
                base_lines,
                left_lines,
                right_lines,
                left_line_ops: Vec::new(),
                right_line_ops: Vec::new(),
            };
            assert(h@.left_ops =~= Seq::empty());
            assert(h@.right_ops =~= Seq::empty());
            h
        },
        ParsedRegion::Conflict { ours, theirs, base } => {
            let base_lines = match base {
                Some(b) => clone_lines(b.as_slice()),
                None => {
                    let e: Vec<String> = Vec::new();
                    assert(e.deep_view() =~= Seq::<Seq<char>>::empty());
                    e
                },
            };
            let left_lines = clone_lines(ours.as_slice());
            let right_lines = clone_lines(theirs.as_slice());
            let left_line_ops = line_diff(base_lines.as_slice(), left_lines.as_slice());
            let right_line_ops = line_diff(base_lines.as_slice(), right_lines.as_slice());
            Hunk {
                id: Some(next_id),
                kind: HunkKind::Conflict,
                base_lines,
                left_lines,
                right_lines,
                left_line_ops,
                right_line_ops,
            }
        },
    }
}

/// The document of a conflicted file from the conflict markers of its
/// working-tree text.
pub fn document_from_markers(path: &str, ours_label: String, theirs_label: String, raw: &str) -> (d:
    ConflictDocument)
    requires
        lines_seq(raw@).len() < u32::MAX,
    ensures
        d@ == markers_document(path@, ours_label@, theirs_label@, raw@),
        d.conflict_count == count_conflict_regions(parse_markers_spec(raw@)),
{
    let trailing_newline = ends_with_char(raw, '\n');
    let parsed = parse_markers(raw);
    let ghost rv = regions_view(parsed@);
    proof {
        lemma_parse_markers_len(raw@);
    }
    let mut hunks: Vec<Hunk> = Vec::new();
    let mut next_id: u32 = 0;
    let mut i: usize = 0;
    assert(rv.take(0) =~= Seq::<RegionView>::empty());
    while i < parsed.len()
        invariant
            rv == regions_view(parsed@),
            rv == parse_markers_spec(raw@),
            rv.len() < u32::MAX,
            i <= parsed@.len(),
            hunks_view(hunks@) == marker_hunks(rv.take(i as int)),
            next_id == count_conflict_regions(rv.take(i as int)),
        decreases parsed.len() - i,
    {
        proof {
            lemma_marker_counts(rv.take(i as int));
        }
        assert(rv.take(i + 1).drop_last() =~= rv.take(i as int));
        assert(rv.take(i + 1).last() == parsed@[i as int]@);
        let h = region_to_hunk(&parsed[i], next_id);
        let ghost before = hunks_view(hunks@);
        hunks.push(h);
        assert(hunks_view(hunks@) =~= before.push(h@));
        match &parsed[i] {
            ParsedRegion::Conflict { .. } => {
                next_id = next_id + 1;
            },
            ParsedRegion::Merged { .. } => {},
        }
        i = i + 1;
    }
    assert(rv.take(parsed@.len() as int) =~= rv);
    proof {
        lemma_marker_counts(rv);
    }
    let conflict_count = next_id;
    let content_hash = to_hex(simple_hash(raw));
    ConflictDocument {
        path: path.to_owned(),
        ours_label,
        theirs_label,
        hunks,
        change_count: 0,
        conflict_count,
        content_hash,
        trailing_newline,
    }
}

} // verus!
