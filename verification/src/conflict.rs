//! Parsing of conflict markers (`<<<<<<<`, `|||||||`, `=======`, `>>>>>>>`)
//! in a working-tree file.
use vstd::prelude::*;
use crate::text::{clone_lines, lemma_lines_len, lines, lines_seq, starts_with, starts_with_seq};

verus! {

/// A region of a conflict-marked file.
#[derive(Debug, Clone, PartialEq)]
pub enum ParsedRegion {
    Merged { lines: Vec<String> },
    Conflict { ours: Vec<String>, theirs: Vec<String>, base: Option<Vec<String>> },
}

/// The mathematical value of a [`ParsedRegion`].
pub enum RegionView {
    Merged(Seq<Seq<char>>),
    Conflict(Seq<Seq<char>>, Seq<Seq<char>>, Option<Seq<Seq<char>>>),
}

impl View for ParsedRegion {
    type V = RegionView;

    open spec fn view(&self) -> RegionView {
        match self {
            ParsedRegion::Merged { lines } => RegionView::Merged(lines.deep_view()),
            ParsedRegion::Conflict { ours, theirs, base } => RegionView::Conflict(
                ours.deep_view(),
                theirs.deep_view(),
                match base {
                    Some(b) => Some(b.deep_view()),
                    None => None,
                },
            ),
        }
    }
}

pub open spec fn regions_view(rs: Seq<ParsedRegion>) -> Seq<RegionView> {
    rs.map_values(|r: ParsedRegion| r@)
}

pub open spec fn start_marker() -> Seq<char> {
    seq!['<', '<', '<', '<', '<', '<', '<']
}

pub open spec fn base_marker() -> Seq<char> {
    seq!['|', '|', '|', '|', '|', '|', '|']
}

pub open spec fn sep_marker() -> Seq<char> {
    seq!['=', '=', '=', '=', '=', '=', '=']
}

pub open spec fn end_marker() -> Seq<char> {
    seq!['>', '>', '>', '>', '>', '>', '>']
}

pub open spec fn is_start(l: Seq<char>) -> bool {
    starts_with_seq(l, start_marker())
}

pub open spec fn is_base(l: Seq<char>) -> bool {
    starts_with_seq(l, base_marker())
}

pub open spec fn is_sep(l: Seq<char>) -> bool {
    starts_with_seq(l, sep_marker())
}

pub open spec fn is_end(l: Seq<char>) -> bool {
    starts_with_seq(l, end_marker())
}

pub open spec fn is_any_marker(l: Seq<char>) -> bool {
    is_start(l) || is_base(l) || is_sep(l) || is_end(l)
}

/// The first index from `i` on of a line that starts with any marker, or
/// the number of lines if there is none.
pub open spec fn next_marker(ls: Seq<Seq<char>>, i: int) -> int
    decreases ls.len() - i,
{
    if i >= ls.len() {
        ls.len() as int
    } else if is_any_marker(ls[i]) {
        i
    } else {
        next_marker(ls, i + 1)
    }
}

/// The first index from `i` on of a line that starts with `=======`, or
/// the number of lines.
pub open spec fn next_sep(ls: Seq<Seq<char>>, i: int) -> int
    decreases ls.len() - i,
{
    if i >= ls.len() {
        ls.len() as int
    } else if is_sep(ls[i]) {
        i
    } else {
        next_sep(ls, i + 1)
    }
}

/// The first index from `i` on of a line that starts with `>>>>>>>`, or
/// the number of lines.
pub open spec fn next_end(ls: Seq<Seq<char>>, i: int) -> int
    decreases ls.len() - i,
{
    if i >= ls.len() {
        ls.len() as int
    } else if is_end(ls[i]) {
        i
    } else {
        next_end(ls, i + 1)
    }
}

pub proof fn lemma_next_bounds(ls: Seq<Seq<char>>, i: int)
    requires
        0 <= i,
    ensures
        i <= next_marker(ls, i) || next_marker(ls, i) == ls.len(),
        next_marker(ls, i) <= ls.len() || i > ls.len(),
        i <= next_sep(ls, i) || next_sep(ls, i) == ls.len(),
        i <= next_end(ls, i) || next_end(ls, i) == ls.len(),
        i <= ls.len() ==> i <= next_marker(ls, i) <= ls.len(),
        i <= ls.len() ==> i <= next_sep(ls, i) <= ls.len(),
        i <= ls.len() ==> i <= next_end(ls, i) <= ls.len(),
        forall|k: int| i <= k < next_marker(ls, i) ==> !is_any_marker(#[trigger] ls[k]),
        forall|k: int| i <= k < next_sep(ls, i) ==> !is_sep(#[trigger] ls[k]),
        forall|k: int| i <= k < next_end(ls, i) ==> !is_end(#[trigger] ls[k]),
        next_marker(ls, i) < ls.len() ==> is_any_marker(ls[next_marker(ls, i)]),
        next_sep(ls, i) < ls.len() ==> is_sep(ls[next_sep(ls, i)]),
        next_end(ls, i) < ls.len() ==> is_end(ls[next_end(ls, i)]),
    decreases ls.len() - i,
{
    if i < ls.len() {
        lemma_next_bounds(ls, i + 1);
    }
}

/// The conflict whose `<<<<<<<` line is line `start`, and the index just
/// past its `>>>>>>>` line: the ours lines run up to the first marker line;
/// that must be `|||||||` (then the base lines run up to the next
/// `=======`) or `=======`; the theirs lines run up to the next `>>>>>>>`.
/// `None` when a marker is missing or a `<<<<<<<` or `>>>>>>>` line comes
/// before the ours side ends.
pub open spec fn conflict_at(ls: Seq<Seq<char>>, start: int) -> Option<(RegionView, int)> {
    let n = ls.len() as int;
    let a = start + 1;
    let j = next_marker(ls, a);
    if j >= n || is_start(ls[j]) || is_end(ls[j]) {
        None
    } else {
        let ours = ls.subrange(a, j);
        let (base, sep) = if is_base(ls[j]) {
            let k = next_sep(ls, j + 1);
            (Some(ls.subrange(j + 1, k)), k)
        } else {
            (None, j)
        };
        if sep >= n {
            None
        } else {
            let m = next_end(ls, sep + 1);
            if m >= n {
                None
            } else {
                Some((RegionView::Conflict(ours, ls.subrange(sep + 1, m), base), m + 1))
            }
        }
    }
}

pub proof fn lemma_conflict_at_advances(ls: Seq<Seq<char>>, start: int)
    requires
        0 <= start < ls.len(),
    ensures
        conflict_at(ls, start) matches Some((_, next)) ==> start < next <= ls.len(),
{
    lemma_next_bounds(ls, start + 1);
    let j = next_marker(ls, start + 1);
    if j < ls.len() {
        lemma_next_bounds(ls, j + 1);
        let k = next_sep(ls, j + 1);
        if k < ls.len() {
            lemma_next_bounds(ls, k + 1);
        }
        lemma_next_bounds(ls, j + 1);
    }
}

/// The merged region for accumulated lines, if there are any.
pub open spec fn flush(merged: Seq<Seq<char>>) -> Seq<RegionView> {
    if merged.len() > 0 {
        seq![RegionView::Merged(merged)]
    } else {
        Seq::empty()
    }
}

/// The regions of lines `i..` after the merged lines `merged` were
/// collected, or `None` when a conflict there is malformed.
pub open spec fn parse_from(ls: Seq<Seq<char>>, i: int, merged: Seq<Seq<char>>) -> Option<
    Seq<RegionView>,
>
    decreases ls.len() - i,
{
    if i < 0 || i >= ls.len() {
        Some(flush(merged))
    } else if is_start(ls[i]) {
        proof {
            lemma_conflict_at_advances(ls, i);
        }
        match conflict_at(ls, i) {
            None => None,
            Some((region, next)) => match parse_from(ls, next, Seq::empty()) {
                None => None,
                Some(rest) => Some(flush(merged) + seq![region] + rest),
            },
        }
    } else {
        parse_from(ls, i + 1, merged.push(ls[i]))
    }
}

/// The regions of a conflict-marked text: merged runs and conflicts in
/// order; on malformed or unterminated markers, one conflict whose ours side
/// is every line of the text, with empty theirs and no base.
pub open spec fn parse_markers_spec(input: Seq<char>) -> Seq<RegionView> {
    let ls = lines_seq(input);
    match parse_from(ls, 0, Seq::empty()) {
        Some(rs) => rs,
        None => seq![RegionView::Conflict(ls, Seq::empty(), None)],
    }
}

pub open spec fn prepend(rs: Seq<RegionView>, o: Option<Seq<RegionView>>) -> Option<Seq<RegionView>> {
    match o {
        Some(x) => Some(rs + x),
        None => None,
    }
}

fn starts_with_marker(line: &str, marker: &str) -> (b: bool)
    ensures
        b == starts_with_seq(line@, marker@),
{
    starts_with(line, marker)
}

pub proof fn lemma_markers_exclusive(l: Seq<char>)
    ensures
        is_start(l) ==> !is_base(l) && !is_sep(l) && !is_end(l),
        is_base(l) ==> !is_start(l) && !is_sep(l) && !is_end(l),
        is_sep(l) ==> !is_start(l) && !is_base(l) && !is_end(l),
        is_end(l) ==> !is_start(l) && !is_base(l) && !is_sep(l),
{
    if l.len() >= 7 {
        let f = l.take(7)[0];
        assert(start_marker()[0] == '<');
        assert(base_marker()[0] == '|');
        assert(sep_marker()[0] == '=');
        assert(end_marker()[0] == '>');
        assert(is_start(l) ==> f == '<');
        assert(is_base(l) ==> f == '|');
        assert(is_sep(l) ==> f == '=');
        assert(is_end(l) ==> f == '>');
    }
}

proof fn lemma_next_marker_at(ls: Seq<Seq<char>>, a: int, i: int)
    requires
        0 <= a <= i <= ls.len(),
        forall|k: int| a <= k < i ==> !is_any_marker(#[trigger] ls[k]),
        i == ls.len() || is_any_marker(ls[i]),
    ensures
        next_marker(ls, a) == i,
    decreases i - a,
{
    if a < i {
        lemma_next_marker_at(ls, a + 1, i);
    }
}

proof fn lemma_next_sep_at(ls: Seq<Seq<char>>, a: int, i: int)
    requires
        0 <= a <= i <= ls.len(),
        forall|k: int| a <= k < i ==> !is_sep(#[trigger] ls[k]),
        i == ls.len() || is_sep(ls[i]),
    ensures
        next_sep(ls, a) == i,
    decreases i - a,
{
    if a < i {
        lemma_next_sep_at(ls, a + 1, i);
    }
}

proof fn lemma_next_end_at(ls: Seq<Seq<char>>, a: int, i: int)
    requires
        0 <= a <= i <= ls.len(),
        forall|k: int| a <= k < i ==> !is_end(#[trigger] ls[k]),
        i == ls.len() || is_end(ls[i]),
    ensures
        next_end(ls, a) == i,
    decreases i - a,
{
    if a < i {
        lemma_next_end_at(ls, a + 1, i);
    }
}

fn start_str() -> (s: &'static str)
    ensures
        s@ == start_marker(),
{
    let s = "<<<<<<<";
    proof {
        reveal_strlit("<<<<<<<");
    }
    assert(s@ =~= start_marker());
    s
}

fn base_str() -> (s: &'static str)
    ensures
        s@ == base_marker(),
{
    let s = "|||||||";
    proof {
        reveal_strlit("|||||||");
    }
    assert(s@ =~= base_marker());
    s
}

fn sep_str() -> (s: &'static str)
    ensures
        s@ == sep_marker(),
{
    let s = "=======";
    proof {
        reveal_strlit("=======");
    }
    assert(s@ =~= sep_marker());
    s
}

fn end_str() -> (s: &'static str)
    ensures
        s@ == end_marker(),
{
    let s = ">>>>>>>";
    proof {
        reveal_strlit(">>>>>>>");
    }
    assert(s@ =~= end_marker());
    s
}

/// Parse one conflict starting at `start` (the `<<<<<<<` line).
/// Returns the region and the index just past the closing `>>>>>>>`.
fn parse_conflict(lines: &[String], start: usize) -> (r: Option<(ParsedRegion, usize)>)
    requires
        start < lines@.len(),
    ensures
        match r {
            None => conflict_at(lines.deep_view(), start as int) is None,
            Some((region, next)) => conflict_at(lines.deep_view(), start as int) == Some(
                (region@, next as int),
            ),
        },
{
    let ghost ls = lines.deep_view();
    let n = lines.len();
    let mut ours: Vec<String> = Vec::new();
    let mut base: Option<Vec<String>> = None;
    let mut theirs: Vec<String> = Vec::new();
    let mut i = start + 1;
    // ours until BASE or SEP
    while i < n && !starts_with_marker(lines[i].as_str(), base_str()) && !starts_with_marker(
        lines[i].as_str(),
        sep_str(),
    )
        invariant
            ls == lines.deep_view(),
            n == ls.len(),
            start < n,
            start + 1 <= i <= n,
            forall|k: int| start + 1 <= k < i ==> !is_any_marker(#[trigger] ls[k]),
            ours.deep_view() == ls.subrange(start + 1, i as int),
        decreases n - i,
    {
        if starts_with_marker(lines[i].as_str(), start_str()) || starts_with_marker(
            lines[i].as_str(),
            end_str(),
        ) {
            proof {
                lemma_next_marker_at(ls, start + 1, i as int);
            }
            return None;  // nested/unexpected marker
        }
        let line = lines[i].clone();
        assert(line@ == ls[i as int]);
        let ghost before = ours.deep_view();
        ours.push(line);
        assert(ours.deep_view() =~= before.push(line@));
        assert(ours.deep_view() =~= ls.subrange(start + 1, i + 1));
        i += 1;
    }
    if i >= n {
        proof {
            lemma_next_marker_at(ls, start + 1, n as int);
        }
        return None;
    }
    let j = i;
    proof {
        lemma_next_marker_at(ls, start + 1, j as int);
        lemma_markers_exclusive(ls[j as int]);
    }
    // optional base section
    if starts_with_marker(lines[i].as_str(), base_str()) {
        i += 1;
        let mut b: Vec<String> = Vec::new();
        while i < n && !starts_with_marker(lines[i].as_str(), sep_str())
            invariant
                ls == lines.deep_view(),
                n == ls.len(),
                j + 1 <= i <= n,
                forall|k: int| j + 1 <= k < i ==> !is_sep(#[trigger] ls[k]),
                b.deep_view() == ls.subrange(j + 1, i as int),
            decreases n - i,
        {
            let line = lines[i].clone();
            assert(line@ == ls[i as int]);
            let ghost before = b.deep_view();
            b.push(line);
            assert(b.deep_view() =~= before.push(line@));
            assert(b.deep_view() =~= ls.subrange(j + 1, i + 1));
            i += 1;
        }
        proof {
            lemma_next_sep_at(ls, j + 1, i as int);
        }
        if i >= n {
            return None;
        }
        base = Some(b);
    }
    // now on SEP
    if !starts_with_marker(lines[i].as_str(), sep_str()) {
        return None;
    }
    let sep = i;
    i += 1;
    // theirs until END
    while i < n && !starts_with_marker(lines[i].as_str(), end_str())
        invariant
            ls == lines.deep_view(),
            n == ls.len(),
            sep + 1 <= i <= n,
            forall|k: int| sep + 1 <= k < i ==> !is_end(#[trigger] ls[k]),
            theirs.deep_view() == ls.subrange(sep + 1, i as int),
        decreases n - i,
    {
        let line = lines[i].clone();
        assert(line@ == ls[i as int]);
        let ghost before = theirs.deep_view();
        theirs.push(line);
        assert(theirs.deep_view() =~= before.push(line@));
        assert(theirs.deep_view() =~= ls.subrange(sep + 1, i + 1));
        i += 1;
    }
    proof {
        lemma_next_end_at(ls, sep + 1, i as int);
    }
    if i >= n {
        return None;  // no closing marker
    }
    // lines[i] is END
    let region = ParsedRegion::Conflict { ours, theirs, base };
    Some((region, i + 1))
}

/// Split a conflict-marked file into an ordered list of merged and conflict
/// regions. On malformed or unterminated markers, returns a single manual
/// conflict region whose ours side holds every line of the text, so that the
/// caller can still present it for hand editing.
pub fn parse_markers(input: &str) -> (r: Vec<ParsedRegion>)
    ensures
        regions_view(r@) == parse_markers_spec(input@),
{
    let lines = lines(input);
    let ghost ls = lines.deep_view();
    let n = lines.len();
    let mut regions: Vec<ParsedRegion> = Vec::new();
    let mut merged: Vec<String> = Vec::new();
    let mut i: usize = 0;
    assert(regions_view(regions@) =~= Seq::<RegionView>::empty());
    assert(merged.deep_view() =~= Seq::<Seq<char>>::empty());
    proof {
        match parse_from(ls, 0, Seq::empty()) {
            None => {},
            Some(x) => {
                assert(Seq::<RegionView>::empty() + x =~= x);
            },
        }
    }
    while i < n
        invariant
            ls == lines.deep_view(),
            ls == lines_seq(input@),
            n == ls.len(),
            i <= n,
            parse_from(ls, 0, Seq::empty()) == prepend(
                regions_view(regions@),
                parse_from(ls, i as int, merged.deep_view()),
            ),
        decreases n - i,
    {
        if starts_with_marker(lines[i].as_str(), start_str()) {
            let ghost mv = merged.deep_view();
            let ghost rv = regions_view(regions@);
            if merged.len() > 0 {
                let m = merged;
                merged = Vec::new();
                let region = ParsedRegion::Merged { lines: m };
                regions.push(region);
                assert(regions_view(regions@) =~= rv + flush(mv));
            } else {
                assert(regions_view(regions@) =~= rv + flush(mv));
            }
            match parse_conflict(&lines, i) {
                Some((region, next)) => {
                    proof {
                        lemma_conflict_at_advances(ls, i as int);
                    }
                    let ghost rv2 = regions_view(regions@);
                    let ghost reg = region@;
                    regions.push(region);
                    assert(regions_view(regions@) =~= rv2.push(reg));
                    proof {
                        match parse_from(ls, next as int, Seq::empty()) {
                            None => {},
                            Some(rest) => {
                                assert(rv + (flush(mv) + seq![reg] + rest) =~= rv2.push(reg)
                                    + rest);
                            },
                        }
                    }
                    merged = Vec::new();
                    assert(merged.deep_view() =~= Seq::<Seq<char>>::empty());
                    i = next;
                },
                None => {
                    let all = clone_lines(lines.as_slice());
                    let fallback = ParsedRegion::Conflict {
                        ours: all,
                        theirs: Vec::new(),
                        base: None,
                    };
                    let mut out: Vec<ParsedRegion> = Vec::new();
                    out.push(fallback);
                    assert(regions_view(out@) =~= seq![out@[0]@]);
                    assert(out@[0]@ == RegionView::Conflict(ls, Seq::empty(), None)) by {
                        assert(out@[0]->Conflict_theirs.deep_view() =~= Seq::<Seq<char>>::empty());
                    }
                    return out;
                },
            }
        } else {
            let line = lines[i].clone();
            assert(line@ == ls[i as int]);
            let ghost before = merged.deep_view();
            merged.push(line);
            assert(merged.deep_view() =~= before.push(ls[i as int]));
            i += 1;
        }
    }
    let ghost rv = regions_view(regions@);
    let ghost mv = merged.deep_view();
    if merged.len() > 0 {
        let region = ParsedRegion::Merged { lines: merged };
        regions.push(region);
    }
    assert(regions_view(regions@) =~= rv + flush(mv));
    regions
}

/// No merged region is empty, and no two merged regions stand side by side:
/// each merged region is followed by a conflict or ends the list.
pub open spec fn regions_well_formed(rs: Seq<RegionView>) -> bool {
    forall|k: int|
        0 <= k < rs.len() ==> match #[trigger] rs[k] {
            RegionView::Merged(m) => m.len() > 0 && (k + 1 < rs.len() ==> rs[k + 1] is Conflict),
            RegionView::Conflict(..) => true,
        }
}

proof fn lemma_parse_from_well_formed(ls: Seq<Seq<char>>, i: int, merged: Seq<Seq<char>>)
    requires
        0 <= i,
    ensures
        parse_from(ls, i, merged) matches Some(rs) ==> regions_well_formed(rs),
    decreases ls.len() - i,
{
    if i >= ls.len() {
    } else if is_start(ls[i]) {
        lemma_conflict_at_advances(ls, i);
        match conflict_at(ls, i) {
            None => {},
            Some((region, next)) => {
                lemma_parse_from_well_formed(ls, next, Seq::empty());
                match parse_from(ls, next, Seq::empty()) {
                    None => {},
                    Some(rest) => {
                        let f = flush(merged);
                        let rs = f + seq![region] + rest;
                        assert(region is Conflict);
                        assert forall|k: int| 0 <= k < rs.len() implies match #[trigger] rs[k] {
                            RegionView::Merged(m) => m.len() > 0 && (k + 1 < rs.len() ==> rs[k
                                + 1] is Conflict),
                            RegionView::Conflict(..) => true,
                        } by {
                            if k >= f.len() + 1 {
                                assert(rs[k] == rest[k - f.len() - 1]);
                                if k + 1 < rs.len() {
                                    assert(rs[k + 1] == rest[k + 1 - f.len() - 1]);
                                }
                            }
                        }
                    },
                }
            },
        }
    } else {
        lemma_parse_from_well_formed(ls, i + 1, merged.push(ls[i]));
    }
}

/// Law: the regions that the parser yields never hold an empty merged
/// region, and never two merged regions side by side.
pub proof fn lemma_parse_markers_well_formed(input: Seq<char>)
    ensures
        regions_well_formed(parse_markers_spec(input)),
{
    lemma_parse_from_well_formed(lines_seq(input), 0, Seq::empty());
}

proof fn lemma_parse_from_plain(ls: Seq<Seq<char>>, i: int, merged: Seq<Seq<char>>)
    requires
        0 <= i <= ls.len(),
        forall|k: int| i <= k < ls.len() ==> !is_start(#[trigger] ls[k]),
    ensures
        parse_from(ls, i, merged) == Some(flush(merged + ls.subrange(i, ls.len() as int))),
    decreases ls.len() - i,
{
    if i == ls.len() {
        assert(merged + ls.subrange(i, i) =~= merged);
    } else {
        lemma_parse_from_plain(ls, i + 1, merged.push(ls[i]));
        assert(merged.push(ls[i]) + ls.subrange(i + 1, ls.len() as int) =~= merged + ls.subrange(
            i,
            ls.len() as int,
        ));
    }
}

/// Law: a text with no `<<<<<<<` line is one merged region holding all its
/// lines (no region at all when it has no lines).
pub proof fn lemma_parse_markers_plain_text(input: Seq<char>)
    requires
        forall|k: int|
            0 <= k < lines_seq(input).len() ==> !is_start(#[trigger] lines_seq(input)[k]),
    ensures
        parse_markers_spec(input) == flush(lines_seq(input)),
{
    let ls = lines_seq(input);
    lemma_parse_from_plain(ls, 0, Seq::empty());
    assert(Seq::<Seq<char>>::empty() + ls.subrange(0, ls.len() as int) =~= ls);
}

proof fn lemma_parse_from_len(ls: Seq<Seq<char>>, i: int, merged: Seq<Seq<char>>)
    requires
        0 <= i <= ls.len(),
    ensures
        parse_from(ls, i, merged) matches Some(rs) ==> rs.len() <= ls.len() - i + if merged.len()
            > 0 {
            1int
        } else {
            0int
        },
    decreases ls.len() - i,
{
    if i < ls.len() {
        if is_start(ls[i]) {
            lemma_conflict_at_advances(ls, i);
            match conflict_at(ls, i) {
                None => {},
                Some((region, next)) => {
                    lemma_parse_from_len(ls, next, Seq::empty());
                },
            }
        } else {
            lemma_parse_from_len(ls, i + 1, merged.push(ls[i]));
        }
    }
}

/// A text gives no more regions than it has lines, hence no more than it
/// has characters.
pub proof fn lemma_parse_markers_len(input: Seq<char>)
    ensures
        parse_markers_spec(input).len() <= lines_seq(input).len(),
        parse_markers_spec(input).len() <= input.len(),
{
    lemma_parse_from_len(lines_seq(input), 0, Seq::empty());
    lemma_lines_len(input);
}

/// The lines a region stands for, with a bare marker line put back at a
/// conflict's start, base, separator and end.
pub open spec fn render_region(r: RegionView) -> Seq<Seq<char>> {
    match r {
        RegionView::Merged(l) => l,
        RegionView::Conflict(o, t, b) => {
            let head = seq![start_marker()] + o;
            let mid = match b {
                Some(bl) => seq![base_marker()] + bl,
                None => Seq::empty(),
            };
            head + mid + seq![sep_marker()] + t + seq![end_marker()]
        },
    }
}

/// The lines of regions, one region after the other.
pub open spec fn render(rs: Seq<RegionView>) -> Seq<Seq<char>>
    decreases rs.len(),
{
    if rs.len() == 0 {
        Seq::empty()
    } else {
        render_region(rs[0]) + render(rs.drop_first())
    }
}

/// A line put back by [`render`] stands for a line of the text: it is that
/// line, or a bare marker that the line starts with (the text may carry a
/// label after the marker).
pub open spec fn line_stands_for(put: Seq<char>, line: Seq<char>) -> bool {
    put == line || ((put == start_marker() || put == base_marker() || put == sep_marker()
        || put == end_marker()) && starts_with_seq(line, put))
}

/// Each line of `a` stands for the line of `b` at the same place.
pub open spec fn lines_stand_for(a: Seq<Seq<char>>, b: Seq<Seq<char>>) -> bool {
    &&& a.len() == b.len()
    &&& forall|k: int| 0 <= k < a.len() ==> line_stands_for(#[trigger] a[k], b[k])
}

proof fn lemma_stand_for_concat(a1: Seq<Seq<char>>, b1: Seq<Seq<char>>, a2: Seq<Seq<char>>, b2: Seq<Seq<char>>)
    requires
        lines_stand_for(a1, b1),
        lines_stand_for(a2, b2),
    ensures
        lines_stand_for(a1 + a2, b1 + b2),
{
    assert forall|k: int| 0 <= k < (a1 + a2).len() implies line_stands_for(#[trigger] (a1 + a2)[k], (b1 + b2)[k]) by {
        if k < a1.len() {
            assert((a1 + a2)[k] == a1[k] && (b1 + b2)[k] == b1[k]);
        } else {
            assert((a1 + a2)[k] == a2[k - a1.len()] && (b1 + b2)[k] == b2[k - a1.len()]);
        }
    }
}

proof fn lemma_stand_for_self(a: Seq<Seq<char>>)
    ensures
        lines_stand_for(a, a),
{
}

proof fn lemma_stand_for_marker(m: Seq<char>, ls: Seq<Seq<char>>, i: int)
    requires
        0 <= i < ls.len(),
        m == start_marker() || m == base_marker() || m == sep_marker() || m == end_marker(),
        starts_with_seq(ls[i], m),
    ensures
        lines_stand_for(seq![m], ls.subrange(i, i + 1)),
{
    assert(ls.subrange(i, i + 1)[0] == ls[i]);
}

proof fn lemma_render_concat(a: Seq<RegionView>, b: Seq<RegionView>)
    ensures
        render(a + b) == render(a) + render(b),
    decreases a.len(),
{
    if a.len() == 0 {
        assert(a + b =~= b);
        assert(render(a) + render(b) =~= render(b));
    } else {
        assert((a + b).drop_first() =~= a.drop_first() + b);
        assert((a + b)[0] == a[0]);
        lemma_render_concat(a.drop_first(), b);
        assert(render_region(a[0]) + (render(a.drop_first()) + render(b)) =~= render_region(a[0])
            + render(a.drop_first()) + render(b));
    }
}

proof fn lemma_render_one(r: RegionView)
    ensures
        render(seq![r]) == render_region(r),
{
    let one = seq![r];
    assert(one.drop_first() =~= Seq::<RegionView>::empty());
    assert(render(Seq::<RegionView>::empty()) == Seq::<Seq<char>>::empty());
    assert(one[0] == r);
    assert(render(one) == render_region(r) + render(one.drop_first()));
    assert(render_region(r) + Seq::<Seq<char>>::empty() =~= render_region(r));
}

proof fn lemma_render_flush(merged: Seq<Seq<char>>)
    ensures
        render(flush(merged)) == merged,
{
    if merged.len() > 0 {
        lemma_render_one(RegionView::Merged(merged));
    } else {
        assert(merged =~= Seq::<Seq<char>>::empty());
    }
}

proof fn lemma_conflict_renders(ls: Seq<Seq<char>>, start: int)
    requires
        0 <= start < ls.len(),
        is_start(ls[start]),
        conflict_at(ls, start) is Some,
    ensures
        ({
            let (region, next) = conflict_at(ls, start)->0;
            lines_stand_for(render_region(region), ls.subrange(start, next))
        }),
{
    let n = ls.len() as int;
    let a = start + 1;
    lemma_next_bounds(ls, a);
    let j = next_marker(ls, a);
    lemma_markers_exclusive(ls[j]);
    let (region, next) = conflict_at(ls, start)->0;
    let ours = ls.subrange(a, j);
    lemma_stand_for_marker(start_marker(), ls, start);
    lemma_stand_for_self(ours);
    lemma_stand_for_concat(seq![start_marker()], ls.subrange(start, a), ours, ls.subrange(a, j));
    assert(ls.subrange(start, a) + ls.subrange(a, j) =~= ls.subrange(start, j));
    let head = seq![start_marker()] + ours;
    let sep = if is_base(ls[j]) {
        let k = next_sep(ls, j + 1);
        lemma_next_bounds(ls, j + 1);
        let b = ls.subrange(j + 1, k);
        lemma_stand_for_marker(base_marker(), ls, j);
        lemma_stand_for_self(b);
        lemma_stand_for_concat(seq![base_marker()], ls.subrange(j, j + 1), b, ls.subrange(j + 1, k));
        assert(ls.subrange(j, j + 1) + ls.subrange(j + 1, k) =~= ls.subrange(j, k));
        lemma_stand_for_concat(head, ls.subrange(start, j), seq![base_marker()] + b, ls.subrange(j, k));
        assert(ls.subrange(start, j) + ls.subrange(j, k) =~= ls.subrange(start, k));
        k
    } else {
        assert(head + Seq::<Seq<char>>::empty() =~= head);
        assert(ls.subrange(start, j) + Seq::<Seq<char>>::empty() =~= ls.subrange(start, j));
        j
    };
    let mid = match region {
        RegionView::Conflict(_, _, Some(bl)) => seq![base_marker()] + bl,
        _ => Seq::empty(),
    };
    assert(lines_stand_for(head + mid, ls.subrange(start, sep)));
    lemma_next_bounds(ls, sep + 1);
    let m = next_end(ls, sep + 1);
    let t = ls.subrange(sep + 1, m);
    lemma_stand_for_marker(sep_marker(), ls, sep);
    lemma_stand_for_concat(head + mid, ls.subrange(start, sep), seq![sep_marker()], ls.subrange(sep, sep + 1));
    assert(ls.subrange(start, sep) + ls.subrange(sep, sep + 1) =~= ls.subrange(start, sep + 1));
    lemma_stand_for_self(t);
    lemma_stand_for_concat(head + mid + seq![sep_marker()], ls.subrange(start, sep + 1), t, ls.subrange(sep + 1, m));
    assert(ls.subrange(start, sep + 1) + ls.subrange(sep + 1, m) =~= ls.subrange(start, m));
    lemma_stand_for_marker(end_marker(), ls, m);
    lemma_stand_for_concat(head + mid + seq![sep_marker()] + t, ls.subrange(start, m), seq![end_marker()], ls.subrange(m, m + 1));
    assert(ls.subrange(start, m) + ls.subrange(m, m + 1) =~= ls.subrange(start, m + 1));
    assert(next == m + 1);
}

proof fn lemma_parse_from_renders(ls: Seq<Seq<char>>, i: int, merged: Seq<Seq<char>>)
    requires
        0 <= i <= ls.len(),
    ensures
        parse_from(ls, i, merged) matches Some(rs) ==> lines_stand_for(
            render(rs),
            merged + ls.subrange(i, ls.len() as int),
        ),
    decreases ls.len() - i,
{
    let n = ls.len() as int;
    if i == n {
        lemma_render_flush(merged);
        assert(merged + ls.subrange(i, n) =~= merged);
        lemma_stand_for_self(merged);
    } else if is_start(ls[i]) {
        lemma_conflict_at_advances(ls, i);
        match conflict_at(ls, i) {
            None => {},
            Some((region, next)) => {
                lemma_parse_from_renders(ls, next, Seq::empty());
                match parse_from(ls, next, Seq::empty()) {
                    None => {},
                    Some(rest) => {
                        let rs = flush(merged) + seq![region] + rest;
                        lemma_render_concat(flush(merged) + seq![region], rest);
                        lemma_render_concat(flush(merged), seq![region]);
                        lemma_render_flush(merged);
                        lemma_render_one(region);
                        lemma_conflict_renders(ls, i);
                        lemma_stand_for_self(merged);
                        assert(Seq::<Seq<char>>::empty() + ls.subrange(next, n) =~= ls.subrange(next, n));
                        lemma_stand_for_concat(merged, merged, render_region(region), ls.subrange(i, next));
                        lemma_stand_for_concat(
                            merged + render_region(region),
                            merged + ls.subrange(i, next),
                            render(rest),
                            ls.subrange(next, n),
                        );
                        assert(merged + ls.subrange(i, next) + ls.subrange(next, n) =~= merged + ls.subrange(i, n));
                    },
                }
            },
        }
    } else {
        lemma_parse_from_renders(ls, i + 1, merged.push(ls[i]));
        assert(merged.push(ls[i]) + ls.subrange(i + 1, n) =~= merged + ls.subrange(i, n));
    }
}

/// Whether the conflict markers of a text are well formed: the parser
/// does not fall back to one manual region.
pub open spec fn markers_well_formed(input: Seq<char>) -> bool {
    parse_from(lines_seq(input), 0, Seq::empty()) is Some
}

/// Law: parsing loses nothing but marker labels. When the markers are well
/// formed, the lines of the regions, with a bare marker line put back at
/// each conflict's start, base, separator and end, are the lines of the
/// text, save that each marker line of the text may carry more after its
/// marker.
pub proof fn lemma_parse_markers_roundtrip(input: Seq<char>)
    requires
        markers_well_formed(input),
    ensures
        lines_stand_for(render(parse_markers_spec(input)), lines_seq(input)),
{
    let ls = lines_seq(input);
    lemma_parse_from_renders(ls, 0, Seq::empty());
    assert(Seq::<Seq<char>>::empty() + ls.subrange(0, ls.len() as int) =~= ls);
}

} // verus!
