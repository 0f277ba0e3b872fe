//! Line-level diff of two line sequences, from `similar`'s Myers diff.
use vstd::prelude::*;
use crate::merge3::{
    changes_apart, diff_ops, equal_runs_match, lemma_ops_bounds, myers_ops, ops_valid,
    run_pair_equal, EditOp,
};
use crate::model::{LineOp, LineOpView, line_ops_view};

verus! {

/// The line operations for one operation of an edit script from `a` to
/// `b`: an equal run gives its lines of `a` as equal lines, a delete its
/// lines of `a`, an insert its lines of `b`, and a replacement its lines of
/// `a` deleted, then its lines of `b` inserted.
pub open spec fn op_line_ops(a: Seq<Seq<char>>, b: Seq<Seq<char>>, op: EditOp) -> Seq<LineOpView> {
    let dels = Seq::new(
        (op.old_end() - op.old_start()) as nat,
        |t: int| LineOpView::Delete(a[op.old_start() + t]),
    );
    let ins = Seq::new(
        (op.new_end() - op.new_start()) as nat,
        |t: int| LineOpView::Insert(b[op.new_start() + t]),
    );
    match op {
        EditOp::Equal { .. } => Seq::new(
            (op.old_end() - op.old_start()) as nat,
            |t: int| LineOpView::Equal(a[op.old_start() + t]),
        ),
        EditOp::Delete { .. } => dels,
        EditOp::Insert { .. } => ins,
        EditOp::Replace { .. } => dels + ins,
    }
}

/// The line operations of an edit script, operation after operation.
pub open spec fn script_line_ops(a: Seq<Seq<char>>, b: Seq<Seq<char>>, ops: Seq<EditOp>) -> Seq<
    LineOpView,
>
    decreases ops.len(),
{
    if ops.len() == 0 {
        Seq::empty()
    } else {
        script_line_ops(a, b, ops.drop_last()) + op_line_ops(a, b, ops.last())
    }
}

/// Whether `similar`'s Myers script from `a` to `b` is an edit script of
/// `a` into `b` whose equal runs pair equal lines, as [`diff_ops`] states
/// of every script it returns.
pub open spec fn myers_script_ok(a: Seq<Seq<char>>, b: Seq<Seq<char>>) -> bool {
    &&& ops_valid(myers_ops(a, b), a.len() as int, b.len() as int)
    &&& equal_runs_match(myers_ops(a, b), a, b)
}

/// Every line of `a` deleted, then every line of `b` inserted.
pub open spec fn replace_all(a: Seq<Seq<char>>, b: Seq<Seq<char>>) -> Seq<LineOpView> {
    Seq::new(a.len(), |t: int| LineOpView::Delete(a[t])) + Seq::new(
        b.len(),
        |t: int| LineOpView::Insert(b[t]),
    )
}

/// What [`line_diff`] returns for `a` against `b`: the line operations of
/// `similar`'s Myers script from `a` to `b` (which [`diff_ops`] shows to be
/// an edit script of `a` into `b`; were it not one, every line of `a`
/// deleted and every line of `b` inserted).
pub open spec fn line_diff_spec(a: Seq<Seq<char>>, b: Seq<Seq<char>>) -> Seq<LineOpView> {
    if myers_script_ok(a, b) {
        script_line_ops(a, b, myers_ops(a, b))
    } else {
        replace_all(a, b)
    }
}

/// The texts of the operations that keep or remove a line of the old side
/// (equal and delete), in order.
pub open spec fn old_texts(ops: Seq<LineOpView>) -> Seq<Seq<char>>
    decreases ops.len(),
{
    if ops.len() == 0 {
        Seq::empty()
    } else {
        old_texts(ops.drop_last()) + match ops.last() {
            LineOpView::Equal(t) => seq![t],
            LineOpView::Delete(t) => seq![t],
            LineOpView::Insert(_) => Seq::empty(),
        }
    }
}

/// The texts of the operations that keep or add a line of the new side
/// (equal and insert), in order.
pub open spec fn new_texts(ops: Seq<LineOpView>) -> Seq<Seq<char>>
    decreases ops.len(),
{
    if ops.len() == 0 {
        Seq::empty()
    } else {
        new_texts(ops.drop_last()) + match ops.last() {
            LineOpView::Equal(t) => seq![t],
            LineOpView::Insert(t) => seq![t],
            LineOpView::Delete(_) => Seq::empty(),
        }
    }
}

proof fn lemma_texts_concat(x: Seq<LineOpView>, y: Seq<LineOpView>)
    ensures
        old_texts(x + y) == old_texts(x) + old_texts(y),
        new_texts(x + y) == new_texts(x) + new_texts(y),
    decreases y.len(),
{
    if y.len() == 0 {
        assert(x + y =~= x);
        assert(old_texts(x) + old_texts(y) =~= old_texts(x));
        assert(new_texts(x) + new_texts(y) =~= new_texts(x));
    } else {
        lemma_texts_concat(x, y.drop_last());
        assert((x + y).drop_last() =~= x + y.drop_last());
        assert((x + y).last() == y.last());
        assert(old_texts(x) + old_texts(y.drop_last()) + old_texts(y).subrange(
            old_texts(y.drop_last()).len() as int,
            old_texts(y).len() as int,
        ) =~= old_texts(x) + old_texts(y));
        assert(new_texts(x) + new_texts(y.drop_last()) + new_texts(y).subrange(
            new_texts(y.drop_last()).len() as int,
            new_texts(y).len() as int,
        ) =~= new_texts(x) + new_texts(y));
    }
}

/// `n` operations all of one kind: their old (or new) texts are the lines
/// they carry.
proof fn lemma_texts_uniform(f: spec_fn(int) -> Seq<char>, n: nat)
    ensures
        old_texts(Seq::new(n, |t: int| LineOpView::Equal(f(t)))) == Seq::new(n, |t: int| f(t)),
        new_texts(Seq::new(n, |t: int| LineOpView::Equal(f(t)))) == Seq::new(n, |t: int| f(t)),
        old_texts(Seq::new(n, |t: int| LineOpView::Delete(f(t)))) == Seq::new(n, |t: int| f(t)),
        new_texts(Seq::new(n, |t: int| LineOpView::Delete(f(t)))) == Seq::<Seq<char>>::empty(),
        old_texts(Seq::new(n, |t: int| LineOpView::Insert(f(t)))) == Seq::<Seq<char>>::empty(),
        new_texts(Seq::new(n, |t: int| LineOpView::Insert(f(t)))) == Seq::new(n, |t: int| f(t)),
    decreases n,
{
    if n > 0 {
        lemma_texts_uniform(f, (n - 1) as nat);
        let m = (n - 1) as nat;
        assert(Seq::new(n, |t: int| LineOpView::Equal(f(t))).drop_last() =~= Seq::new(
            m,
            |t: int| LineOpView::Equal(f(t)),
        ));
        assert(Seq::new(n, |t: int| LineOpView::Delete(f(t))).drop_last() =~= Seq::new(
            m,
            |t: int| LineOpView::Delete(f(t)),
        ));
        assert(Seq::new(n, |t: int| LineOpView::Insert(f(t))).drop_last() =~= Seq::new(
            m,
            |t: int| LineOpView::Insert(f(t)),
        ));
        assert(Seq::new(m, |t: int| f(t)).push(f(m as int)) =~= Seq::new(n, |t: int| f(t)));
        assert(Seq::new(m, |t: int| f(t)) + seq![f(m as int)] =~= Seq::new(n, |t: int| f(t)));
        assert(Seq::<Seq<char>>::empty() + Seq::<Seq<char>>::empty() =~= Seq::<Seq<char>>::empty());
    }
}

/// The old and new texts of one operation's line operations are its old
/// and new lines (an equal run's lines of `a` are its lines of `b`).
proof fn lemma_op_texts(a: Seq<Seq<char>>, b: Seq<Seq<char>>, ops: Seq<EditOp>, k: int)
    requires
        0 <= k < ops.len(),
        ops_valid(ops, a.len() as int, b.len() as int),
        equal_runs_match(ops, a, b),
    ensures
        old_texts(op_line_ops(a, b, ops[k])) == a.subrange(ops[k].old_start(), ops[k].old_end()),
        new_texts(op_line_ops(a, b, ops[k])) == b.subrange(ops[k].new_start(), ops[k].new_end()),
{
    lemma_ops_bounds(ops, a.len() as int, b.len() as int);
    let op = ops[k];
    let o0 = op.old_start();
    let n0 = op.new_start();
    let fa = |t: int| a[o0 + t];
    let fb = |t: int| b[n0 + t];
    let lo = (op.old_end() - o0) as nat;
    let ln = (op.new_end() - n0) as nat;
    lemma_texts_uniform(fa, lo);
    lemma_texts_uniform(fb, ln);
    assert(Seq::new(lo, |t: int| fa(t)) =~= a.subrange(o0, op.old_end()));
    assert(Seq::new(ln, |t: int| fb(t)) =~= b.subrange(n0, op.new_end()));
    let dels = Seq::new(lo, |t: int| LineOpView::Delete(a[o0 + t]));
    let ins = Seq::new(ln, |t: int| LineOpView::Insert(b[n0 + t]));
    assert(dels =~= Seq::new(lo, |t: int| LineOpView::Delete(fa(t))));
    assert(ins =~= Seq::new(ln, |t: int| LineOpView::Insert(fb(t))));
    match op {
        EditOp::Equal { .. } => {
            let eqs = Seq::new(lo, |t: int| LineOpView::Equal(a[o0 + t]));
            assert(eqs =~= Seq::new(lo, |t: int| LineOpView::Equal(fa(t))));
            assert(lo == ln);
            assert forall|t: int| 0 <= t < lo implies a.subrange(o0, op.old_end())[t] == b.subrange(
                n0,
                op.new_end(),
            )[t] by {
                assert(run_pair_equal(a, b, ops[k], t));
            }
            assert(a.subrange(o0, op.old_end()) =~= b.subrange(n0, op.new_end()));
        },
        EditOp::Delete { .. } => {
            assert(b.subrange(n0, op.new_end()) =~= Seq::<Seq<char>>::empty());
        },
        EditOp::Insert { .. } => {
            assert(a.subrange(o0, op.old_end()) =~= Seq::<Seq<char>>::empty());
        },
        EditOp::Replace { .. } => {
            lemma_texts_concat(dels, ins);
            assert(a.subrange(o0, op.old_end()) + Seq::<Seq<char>>::empty() =~= a.subrange(
                o0,
                op.old_end(),
            ));
            assert(Seq::<Seq<char>>::empty() + b.subrange(n0, op.new_end()) =~= b.subrange(
                n0,
                op.new_end(),
            ));
        },
    }
}

proof fn lemma_script_texts(a: Seq<Seq<char>>, b: Seq<Seq<char>>, ops: Seq<EditOp>, i: int)
    requires
        0 <= i <= ops.len(),
        ops_valid(ops, a.len() as int, b.len() as int),
        equal_runs_match(ops, a, b),
    ensures
        old_texts(script_line_ops(a, b, ops.take(i))) == a.subrange(
            0,
            if i == 0 {
                0
            } else {
                ops[i - 1].old_end()
            },
        ),
        new_texts(script_line_ops(a, b, ops.take(i))) == b.subrange(
            0,
            if i == 0 {
                0
            } else {
                ops[i - 1].new_end()
            },
        ),
    decreases i,
{
    lemma_ops_bounds(ops, a.len() as int, b.len() as int);
    if i == 0 {
        assert(ops.take(0) =~= Seq::<EditOp>::empty());
        assert(a.subrange(0, 0) =~= Seq::<Seq<char>>::empty());
        assert(b.subrange(0, 0) =~= Seq::<Seq<char>>::empty());
    } else {
        lemma_script_texts(a, b, ops, i - 1);
        assert(ops.take(i).drop_last() =~= ops.take(i - 1));
        assert(ops.take(i).last() == ops[i - 1]);
        lemma_op_texts(a, b, ops, i - 1);
        lemma_texts_concat(script_line_ops(a, b, ops.take(i - 1)), op_line_ops(a, b, ops[i - 1]));
        let ps = if i - 1 == 0 {
            0
        } else {
            ops[i - 2].old_end()
        };
        let pn = if i - 1 == 0 {
            0
        } else {
            ops[i - 2].new_end()
        };
        assert(ps == ops[i - 1].old_start());
        assert(pn == ops[i - 1].new_start());
        assert(a.subrange(0, ps) + a.subrange(ps, ops[i - 1].old_end()) =~= a.subrange(
            0,
            ops[i - 1].old_end(),
        ));
        assert(b.subrange(0, pn) + b.subrange(pn, ops[i - 1].new_end()) =~= b.subrange(
            0,
            ops[i - 1].new_end(),
        ));
    }
}

/// Law: a line diff describes how to get from `a` to `b`. The texts of its
/// equal and delete operations, in order, are the lines of `a`; those of
/// its equal and insert operations are the lines of `b`.
pub proof fn lemma_script_line_ops_sides(a: Seq<Seq<char>>, b: Seq<Seq<char>>, ops: Seq<EditOp>)
    requires
        ops_valid(ops, a.len() as int, b.len() as int),
        equal_runs_match(ops, a, b),
    ensures
        old_texts(script_line_ops(a, b, ops)) == a,
        new_texts(script_line_ops(a, b, ops)) == b,
{
    lemma_script_texts(a, b, ops, ops.len() as int);
    assert(ops.take(ops.len() as int) =~= ops);
    assert(a.subrange(0, a.len() as int) =~= a);
    assert(b.subrange(0, b.len() as int) =~= b);
    if ops.len() == 0 {
        assert(a.len() == 0 && b.len() == 0);
    }
}

/// Within every run of changed lines, the deletions come before the
/// insertions: an insertion is followed by a deletion only across an equal
/// line.
pub open spec fn deletes_before_inserts(v: Seq<LineOpView>) -> bool {
    forall|i: int, j: int|
        #![trigger v[i], v[j]]
        0 <= i < j < v.len() && v[i] is Insert && v[j] is Delete ==> exists|k: int|
            i < k < j && #[trigger] v[k] is Equal
}

/// The line operations of one operation: an equal run gives only equal
/// lines, at least one; a change gives no equal line, its deletions first.
proof fn lemma_op_shape(a: Seq<Seq<char>>, b: Seq<Seq<char>>, op: EditOp)
    requires
        op.nonempty(),
        op.old_start() <= op.old_end(),
        op.new_start() <= op.new_end(),
    ensures
        op is Equal ==> op_line_ops(a, b, op).len() > 0 && forall|k: int|
            0 <= k < op_line_ops(a, b, op).len() ==> #[trigger] op_line_ops(a, b, op)[k] is Equal,
        op.is_change() ==> forall|i: int, j: int|
            #![trigger op_line_ops(a, b, op)[i], op_line_ops(a, b, op)[j]]
            0 <= i < j < op_line_ops(a, b, op).len() && op_line_ops(a, b, op)[i] is Insert
                ==> !(op_line_ops(a, b, op)[j] is Delete),
        op.is_change() ==> forall|k: int|
            0 <= k < op_line_ops(a, b, op).len() ==> !(#[trigger] op_line_ops(a, b, op)[k] is Equal),
{
    let v = op_line_ops(a, b, op);
    let lo = (op.old_end() - op.old_start()) as nat;
    match op {
        EditOp::Replace { .. } => {
            assert forall|k: int| 0 <= k < v.len() implies (k < lo ==> v[k] is Delete) && (k >= lo ==> v[k] is Insert) by {}
        },
        _ => {},
    }
}

/// Appending the line operations of one more operation keeps the
/// deletions of each changed run before its insertions, as long as no two
/// changes follow each other.
#[verifier::spinoff_prover]
#[verifier::rlimit(40)]
proof fn lemma_script_order(a: Seq<Seq<char>>, b: Seq<Seq<char>>, ops: Seq<EditOp>, i: int)
    requires
        ops_valid(ops, a.len() as int, b.len() as int),
        changes_apart(ops),
        0 <= i <= ops.len(),
    ensures
        deletes_before_inserts(script_line_ops(a, b, ops.take(i))),
        i > 0 && ops[i - 1] is Equal ==> script_line_ops(a, b, ops.take(i)).len() > 0
            && script_line_ops(a, b, ops.take(i)).last() is Equal,
    decreases i,
{
    lemma_ops_bounds(ops, a.len() as int, b.len() as int);
    if i == 0 {
        assert(ops.take(0) =~= Seq::<EditOp>::empty());
    } else {
        lemma_script_order(a, b, ops, i - 1);
        assert(ops.take(i).drop_last() =~= ops.take(i - 1));
        assert(ops.take(i).last() == ops[i - 1]);
        let x = script_line_ops(a, b, ops.take(i - 1));
        let y = op_line_ops(a, b, ops[i - 1]);
        let v = x + y;
        assert(script_line_ops(a, b, ops.take(i)) == v);
        lemma_op_shape(a, b, ops[i - 1]);
        if ops[i - 1].is_change() && i >= 2 {
            assert(!ops[i - 2].is_change());
        }
        assert forall|p: int, q: int|
            #![trigger v[p], v[q]]
            0 <= p < q < v.len() && v[p] is Insert && v[q] is Delete implies exists|k: int|
                p < k < q && #[trigger] v[k] is Equal by {
            if q < x.len() {
                assert(v[p] == x[p] && v[q] == x[q]);
                let k = choose|k: int| p < k < q && #[trigger] x[k] is Equal;
                assert(v[k] == x[k]);
            } else if p >= x.len() {
                assert(v[p] == y[p - x.len()] && v[q] == y[q - x.len()]);
                if ops[i - 1] is Equal {
                    assert(y[p - x.len()] is Equal);
                }
            } else {
                assert(v[q] == y[q - x.len()]);
                if ops[i - 1] is Equal {
                    assert(y[q - x.len()] is Equal);
                }
                assert(ops[i - 1].is_change());
                assert(i >= 2) by {
                    if i == 1 {
                        assert(x.len() == 0) by {
                            assert(ops.take(0) =~= Seq::<EditOp>::empty());
                        }
                    }
                }
                let k = x.len() - 1;
                assert(v[k] == x.last());
                assert(v[p] == x[p]);
            }
        }
        if ops[i - 1] is Equal {
            assert(v.last() == y.last());
        }
    }
}

/// Law: the line diff of `a` against `b` describes how to get from `a` to
/// `b`. The texts of its equal and delete operations, in order, are the
/// lines of `a`; those of its equal and insert operations are the lines of
/// `b`.
pub proof fn lemma_line_diff_sides(a: Seq<Seq<char>>, b: Seq<Seq<char>>)
    ensures
        old_texts(line_diff_spec(a, b)) == a,
        new_texts(line_diff_spec(a, b)) == b,
{
    if myers_script_ok(a, b) {
        lemma_script_line_ops_sides(a, b, myers_ops(a, b));
    } else {
        let fa = |t: int| a[t];
        let fb = |t: int| b[t];
        lemma_texts_uniform(fa, a.len());
        lemma_texts_uniform(fb, b.len());
        let dels = Seq::new(a.len(), |t: int| LineOpView::Delete(a[t]));
        let ins = Seq::new(b.len(), |t: int| LineOpView::Insert(b[t]));
        assert(dels =~= Seq::new(a.len(), |t: int| LineOpView::Delete(fa(t))));
        assert(ins =~= Seq::new(b.len(), |t: int| LineOpView::Insert(fb(t))));
        assert(Seq::new(a.len(), |t: int| fa(t)) =~= a);
        assert(Seq::new(b.len(), |t: int| fb(t)) =~= b);
        lemma_texts_concat(dels, ins);
        assert(a + Seq::<Seq<char>>::empty() =~= a);
        assert(Seq::<Seq<char>>::empty() + b =~= b);
    }
}

fn push_ops(out: &mut Vec<LineOp>, lines: &[String], lo: usize, hi: usize, kind: u8)
    requires
        lo <= hi <= lines@.len(),
        kind < 3,
    ensures
        line_ops_view(final(out)@) == line_ops_view(old(out)@) + Seq::new(
            (hi - lo) as nat,
            |t: int|
                if kind == 0 {
                    LineOpView::Equal(lines@[lo + t]@)
                } else if kind == 1 {
                    LineOpView::Delete(lines@[lo + t]@)
                } else {
                    LineOpView::Insert(lines@[lo + t]@)
                },
        ),
{
    let ghost init = line_ops_view(out@);
    let mut k = lo;
    while k < hi
        invariant
            lo <= k <= hi <= lines@.len(),
            kind < 3,
            line_ops_view(out@) == init + Seq::new(
                (k - lo) as nat,
                |t: int|
                    if kind == 0 {
                        LineOpView::Equal(lines@[lo + t]@)
                    } else if kind == 1 {
                        LineOpView::Delete(lines@[lo + t]@)
                    } else {
                        LineOpView::Insert(lines@[lo + t]@)
                    },
            ),
        decreases hi - k,
    {
        let text = lines[k].clone();
        let op = if kind == 0 {
            LineOp::Equal { text }
        } else if kind == 1 {
            LineOp::Delete { text }
        } else {
            LineOp::Insert { text }
        };
        let ghost before = out@;
        out.push(op);
        assert(line_ops_view(out@) =~= line_ops_view(before).push(op@));
        assert(line_ops_view(out@) =~= init + Seq::new(
            (k + 1 - lo) as nat,
            |t: int|
                if kind == 0 {
                    LineOpView::Equal(lines@[lo + t]@)
                } else if kind == 1 {
                    LineOpView::Delete(lines@[lo + t]@)
                } else {
                    LineOpView::Insert(lines@[lo + t]@)
                },
        ));
        k = k + 1;
    }
}

/// Turns an edit script from `a` to `b` into line operations, operation
/// after operation, as [`op_line_ops`] describes.
pub fn line_ops_from_script(a: &[String], b: &[String], ops: &[EditOp]) -> (r: Vec<LineOp>)
    requires
        ops_valid(ops@, a@.len() as int, b@.len() as int),
    ensures
        line_ops_view(r@) == script_line_ops(a.deep_view(), b.deep_view(), ops@),
{
    proof {
        lemma_ops_bounds(ops@, a@.len() as int, b@.len() as int);
    }
    let ghost av = a.deep_view();
    let ghost bv = b.deep_view();
    let mut out: Vec<LineOp> = Vec::new();
    let mut i: usize = 0;
    assert(ops@.take(0) =~= Seq::<EditOp>::empty());
    while i < ops.len()
        invariant
            i <= ops@.len(),
            av == a.deep_view(),
            bv == b.deep_view(),
            forall|j: int|
                0 <= j < ops@.len() ==> {
                    &&& 0 <= #[trigger] ops@[j].old_start() <= ops@[j].old_end() <= a@.len()
                    &&& 0 <= ops@[j].new_start() <= ops@[j].new_end() <= b@.len()
                },
            forall|j: int|
                0 <= j < ops@.len() && (#[trigger] ops@[j]) is Equal ==> ops@[j].old_end()
                    - ops@[j].old_start() == ops@[j].new_end() - ops@[j].new_start(),
            line_ops_view(out@) == script_line_ops(av, bv, ops@.take(i as int)),
        decreases ops.len() - i,
    {
        assert(ops@.take(i + 1).drop_last() =~= ops@.take(i as int));
        assert(ops@.take(i + 1).last() == ops@[i as int]);
        let ghost o = ops@[i as int];
        let ghost before = line_ops_view(out@);
        assert(0 <= o.old_start() <= o.old_end() <= a@.len());
        assert(0 <= o.new_start() <= o.new_end() <= b@.len());
        let op = ops[i];
        assert(op == o);
        let alen = a.len();
        let blen = b.len();
        assert(o.old_end() <= alen && o.new_end() <= blen);
        match op {
            EditOp::Equal { old_index, len, .. } => {
                push_ops(&mut out, a, old_index, old_index + len, 0);
            },
            EditOp::Delete { old_index, old_len, .. } => {
                push_ops(&mut out, a, old_index, old_index + old_len, 1);
            },
            EditOp::Insert { new_index, new_len, .. } => {
                push_ops(&mut out, b, new_index, new_index + new_len, 2);
            },
            EditOp::Replace { old_index, old_len, new_index, new_len } => {
                push_ops(&mut out, a, old_index, old_index + old_len, 1);
                let ghost mid = line_ops_view(out@);
                push_ops(&mut out, b, new_index, new_index + new_len, 2);
                assert(mid.subrange(0, before.len() as int) =~= before);
            },
        }
        proof {
            let piece = op_line_ops(av, bv, o);
            assert(line_ops_view(out@) =~= before + piece);
        }
        i = i + 1;
    }
    assert(ops@.take(ops@.len() as int) =~= ops@);
    out
}

/// Line-level diff of `a` (base/left) vs `b` (right), as ops describing how
/// to get from `a` to `b`. Equal lines appear once; changed lines appear as
/// Delete (from `a`) then Insert (from `b`).
pub fn line_diff(a: &[String], b: &[String]) -> (r: Vec<LineOp>)
    ensures
        line_ops_view(r@) == line_diff_spec(a.deep_view(), b.deep_view()),
        old_texts(line_ops_view(r@)) == a.deep_view(),
        new_texts(line_ops_view(r@)) == b.deep_view(),
        deletes_before_inserts(line_ops_view(r@)),
        a.deep_view() == b.deep_view() ==> forall|k: int| 0 <= k < r@.len() ==> #[trigger] r@[k] is Equal,
{
    let ops = diff_ops(a, b);
    let r = line_ops_from_script(a, b, ops.as_slice());
    proof {
        lemma_script_line_ops_sides(a.deep_view(), b.deep_view(), ops@);
        lemma_script_order(a.deep_view(), b.deep_view(), ops@, ops@.len() as int);
        assert(ops@.take(ops@.len() as int) =~= ops@);
        if a.deep_view() == b.deep_view() {
            lemma_equal_script_ops(a.deep_view(), ops@);
            assert forall|k: int| 0 <= k < r@.len() implies #[trigger] r@[k] is Equal by {
                assert(line_ops_view(r@)[k] == r@[k]@);
            }
        }
    }
    r
}

proof fn lemma_equal_script_ops(a: Seq<Seq<char>>, ops: Seq<EditOp>)
    requires
        forall|k: int| 0 <= k < ops.len() ==> #[trigger] ops[k] is Equal,
    ensures
        forall|k: int|
            0 <= k < script_line_ops(a, a, ops).len() ==> #[trigger] script_line_ops(a, a, ops)[k] is Equal,
    decreases ops.len(),
{
    if ops.len() > 0 {
        let p = ops.drop_last();
        assert forall|k: int| 0 <= k < p.len() implies #[trigger] p[k] is Equal by {
            assert(p[k] == ops[k]);
        }
        lemma_equal_script_ops(a, p);
        assert(ops.last() == ops[ops.len() - 1]);
        let x = script_line_ops(a, a, p);
        let y = op_line_ops(a, a, ops.last());
        assert forall|k: int| 0 <= k < (x + y).len() implies #[trigger] (x + y)[k] is Equal by {
            if k >= x.len() {
                assert((x + y)[k] == y[k - x.len()]);
            }
        }
    }
}

} // verus!
