//! Line- and character-level text helpers, each with the sequence function
//! that states what it computes.
use vstd::prelude::*;
use vstd::string::*;

verus! {

/// The pieces of `s` separated by `sep`, as `str::split` yields them:
/// there is always at least one piece, and separators at either end give
/// empty pieces there.
pub open spec fn split_seq(s: Seq<char>, sep: char) -> Seq<Seq<char>>
    decreases s.len(),
{
    if s.len() == 0 {
        seq![Seq::<char>::empty()]
    } else {
        let prev = split_seq(s.drop_last(), sep);
        if s.last() == sep {
            prev.push(Seq::<char>::empty())
        } else {
            prev.update(prev.len() - 1, prev.last().push(s.last()))
        }
    }
}

/// `split_seq` never yields an empty list of pieces.
pub proof fn lemma_split_seq_nonempty(s: Seq<char>, sep: char)
    ensures
        split_seq(s, sep).len() >= 1,
    decreases s.len(),
{
    if s.len() > 0 {
        lemma_split_seq_nonempty(s.drop_last(), sep);
    }
}

/// `split_seq` yields at most one piece more than there are characters,
/// and no more pieces than characters when its last piece is not empty.
pub proof fn lemma_split_seq_len(s: Seq<char>, sep: char)
    ensures
        split_seq(s, sep).len() <= s.len() + 1,
        split_seq(s, sep).last().len() > 0 ==> split_seq(s, sep).len() <= s.len(),
    decreases s.len(),
{
    if s.len() > 0 {
        lemma_split_seq_len(s.drop_last(), sep);
        lemma_split_seq_nonempty(s.drop_last(), sep);
    }
}

/// A text has no more lines than characters.
pub proof fn lemma_lines_len(s: Seq<char>)
    ensures
        lines_seq(s).len() <= s.len(),
{
    lemma_split_seq_len(s, '\n');
    lemma_split_seq_nonempty(s, '\n');
}

/// The pieces joined back with `sep` between consecutive ones.
pub open spec fn join_seq(parts: Seq<Seq<char>>, sep: char) -> Seq<char>
    decreases parts.len(),
{
    if parts.len() == 0 {
        Seq::<char>::empty()
    } else if parts.len() == 1 {
        parts[0]
    } else {
        join_seq(parts.drop_last(), sep) + seq![sep] + parts.last()
    }
}

/// Joining the pieces of `split_seq` with the separator gives the text
/// back, and no piece holds the separator.
pub proof fn lemma_split_join(s: Seq<char>, sep: char)
    ensures
        join_seq(split_seq(s, sep), sep) == s,
        forall|i: int| 0 <= i < split_seq(s, sep).len() ==> !(#[trigger] split_seq(s, sep)[i]).contains(sep),
    decreases s.len(),
{
    if s.len() > 0 {
        let prev = split_seq(s.drop_last(), sep);
        lemma_split_join(s.drop_last(), sep);
        lemma_split_seq_nonempty(s.drop_last(), sep);
        let cur = split_seq(s, sep);
        if s.last() == sep {
            assert(cur == prev.push(Seq::<char>::empty()));
            assert(cur.drop_last() =~= prev);
            assert(join_seq(cur, sep) == join_seq(prev, sep) + seq![sep] + Seq::<char>::empty());
            assert(s.drop_last() + seq![sep] + Seq::<char>::empty() =~= s);
            assert forall|i: int| 0 <= i < cur.len() implies !(#[trigger] cur[i]).contains(sep) by {
                if i < prev.len() {
                    assert(cur[i] == prev[i]);
                }
            }
        } else {
            let last = prev.last().push(s.last());
            assert(cur == prev.update(prev.len() - 1, last));
            if prev.len() == 1 {
                assert(join_seq(cur, sep) == cur[0]);
                assert(join_seq(prev, sep) == prev[0]);
                assert(prev[0].push(s.last()) =~= s);
            } else {
                assert(cur.drop_last() =~= prev.drop_last());
                assert(join_seq(prev, sep) == join_seq(prev.drop_last(), sep) + seq![sep] + prev.last());
                assert(join_seq(cur, sep) == join_seq(cur.drop_last(), sep) + seq![sep] + cur.last());
                assert(join_seq(prev.drop_last(), sep) + seq![sep] + last =~= s.drop_last().push(s.last()));
                assert(s.drop_last().push(s.last()) =~= s);
            }
            assert forall|i: int| 0 <= i < cur.len() implies !(#[trigger] cur[i]).contains(sep) by {
                if i < prev.len() - 1 {
                    assert(cur[i] == prev[i]);
                } else {
                    assert(cur[i] == last);
                    assert(!prev.last().contains(sep));
                    if last.contains(sep) {
                        let k = choose|k: int| 0 <= k < last.len() && last[k] == sep;
                        if k < prev.last().len() {
                            assert(prev.last()[k] == sep);
                        }
                    }
                }
            }
        }
    }
}

/// `s` without one trailing carriage return, if it has one.
pub open spec fn strip_cr(s: Seq<char>) -> Seq<char> {
    if s.len() > 0 && s.last() == '\r' {
        s.drop_last()
    } else {
        s
    }
}

/// The lines of `s` as `str::lines` yields them: split at `\n`, a final
/// empty piece (after a final `\n`, or of the empty string) dropped, and a
/// `\r` that stood just before a `\n` removed.
pub open spec fn lines_seq(s: Seq<char>) -> Seq<Seq<char>> {
    let parts = split_seq(s, '\n');
    let n = parts.len();
    let kept = if parts.last().len() == 0 { n - 1 } else { n as int };
    Seq::new(kept as nat, |i: int| if i < n - 1 { strip_cr(parts[i]) } else { parts[i] })
}

/// Whether `s` ends with the character `c`.
pub open spec fn ends_with_seq(s: Seq<char>, c: char) -> bool {
    s.len() > 0 && s.last() == c
}

/// Whether `p` is a prefix of `s`.
pub open spec fn starts_with_seq(s: Seq<char>, p: Seq<char>) -> bool {
    p.len() <= s.len() && s.take(p.len() as int) == p
}

/// Calls `str::split` with a character pattern and copies each piece into
/// a `String`. Claimed: the pieces are those that [`split_seq`] describes,
/// as std documents `split`: the text between consecutive separators, in
/// order, with an empty piece before a leading and after a trailing
/// separator, and one empty piece for an empty text. (`split` walks the
/// text once; `get_char` and `substring_char` each walk it from its start.)
#[verifier::external_body]
pub(crate) fn split_str(s: &str, sep: char) -> (r: Vec<String>)
    ensures
        r.deep_view() == split_seq(s@, sep),
{
    s.split(sep).map(|p| p.to_string()).collect()
}

/// The number of characters of `s`.
pub fn char_count(s: &str) -> (n: usize)
    ensures
        n == s@.len(),
{
    s.unicode_len()
}

/// A copy of the first `k` characters of `s`.
pub fn prefix_string(s: &str, k: usize) -> (r: String)
    requires
        k <= s@.len(),
    ensures
        r@ == s@.take(k as int),
{
    s.substring_char(0, k).to_owned()
}

/// Whether `s` ends with the character `c`.
pub fn ends_with_char(s: &str, c: char) -> (b: bool)
    ensures
        b == ends_with_seq(s@, c),
{
    let n = s.unicode_len();
    n > 0 && s.get_char(n - 1) == c
}

/// Whether `p` is a prefix of `s`.
pub fn starts_with(s: &str, p: &str) -> (b: bool)
    ensures
        b == starts_with_seq(s@, p@),
{
    let n = s.unicode_len();
    let k = p.unicode_len();
    if k > n {
        return false;
    }
    let mut i: usize = 0;
    while i < k
        invariant
            k == p@.len(),
            n == s@.len(),
            k <= n,
            i <= k,
            forall|j: int| 0 <= j < i ==> s@[j] == p@[j],
        decreases k - i,
    {
        if s.get_char(i) != p.get_char(i) {
            assert(s@.take(k as int)[i as int] != p@[i as int]);
            return false;
        }
        i = i + 1;
    }
    assert(s@.take(k as int) =~= p@);
    true
}

/// The lines of `s`, as `str::lines` yields them.
pub fn lines(s: &str) -> (r: Vec<String>)
    ensures
        r.deep_view() == lines_seq(s@),
{
    let parts = split_str(s, '\n');
    proof {
        lemma_split_seq_nonempty(s@, '\n');
    }
    let n = parts.len();
    let kept = if parts[n - 1].unicode_len() == 0 { n - 1 } else { n };
    let ghost pv = parts.deep_view();
    let mut out: Vec<String> = Vec::new();
    let mut i: usize = 0;
    while i < kept
        invariant
            pv == parts.deep_view(),
            pv == split_seq(s@, '\n'),
            n == pv.len(),
            kept <= n,
            kept == if pv.last().len() == 0 { n - 1 } else { n as int },
            i <= kept,
            out.len() == i,
            forall|j: int|
                0 <= j < i ==> #[trigger] out@[j]@ == (if j < n - 1 {
                    strip_cr(pv[j])
                } else {
                    pv[j]
                }),
        decreases kept - i,
    {
        let p = parts[i].as_str();
        assert(p@ == pv[i as int]);
        if i + 1 < n && ends_with_char(p, '\r') {
            let m = p.unicode_len();
            let q = prefix_string(p, m - 1);
            assert(q@ =~= strip_cr(pv[i as int]));
            out.push(q);
        } else {
            let q = p.to_owned();
            out.push(q);
        }
        i = i + 1;
    }
    assert(out.deep_view() =~= lines_seq(s@));
    out
}

/// A copy of the lines `lo..hi` of `ls`.
pub fn copy_lines(ls: &[String], lo: usize, hi: usize) -> (r: Vec<String>)
    requires
        lo <= hi <= ls@.len(),
    ensures
        r.deep_view() == ls.deep_view().subrange(lo as int, hi as int),
{
    let mut out: Vec<String> = Vec::new();
    let mut k = lo;
    while k < hi
        invariant
            lo <= k <= hi <= ls@.len(),
            out.deep_view() == ls.deep_view().subrange(lo as int, k as int),
        decreases hi - k,
    {
        let line = ls[k].clone();
        assert(line@ == ls.deep_view()[k as int]);
        let ghost before = out.deep_view();
        out.push(line);
        assert(out.deep_view() =~= before.push(line@));
        assert(out.deep_view() =~= ls.deep_view().subrange(lo as int, k + 1));
        k = k + 1;
    }
    out
}

/// A copy of all the lines of `ls`.
pub fn clone_lines(ls: &[String]) -> (r: Vec<String>)
    ensures
        r.deep_view() == ls.deep_view(),
{
    let r = copy_lines(ls, 0, ls.len());
    assert(ls.deep_view().subrange(0, ls@.len() as int) =~= ls.deep_view());
    r
}

} // verus!
