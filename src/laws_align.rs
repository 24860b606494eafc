//! What every alignment keeps: each line of either side shows up once.
use vstd::prelude::*;
use crate::diff_algo::{
    block, dels_from, hunk_starts, hunk_starts_upto, ins_from, is_hunk_start, lcs, render,
    render_rows, rows_from, script, side_by_side, LineView, Op, Row,
};
use crate::text::{expand_tabs, lines_of};
use crate::types::ChangeType;

verus! {

/// Whether a row shows a line of the old side (`old`) or of the new side.
pub open spec fn has_side(v: LineView, old: bool) -> bool {
    if old {
        v.old_line is Some
    } else {
        v.new_line is Some
    }
}

/// How many rows show a line of the given side.
pub open spec fn side_count(v: Seq<LineView>, old: bool) -> nat
    decreases v.len(),
{
    if v.len() == 0 {
        0
    } else {
        side_count(v.drop_last(), old) + if has_side(v.last(), old) {
            1nat
        } else {
            0nat
        }
    }
}

spec fn row_has(r: Row, old: bool) -> bool {
    if old {
        r.old is Some
    } else {
        r.new is Some
    }
}

spec fn row_count(v: Seq<Row>, old: bool) -> nat
    decreases v.len(),
{
    if v.len() == 0 {
        0
    } else {
        row_count(v.drop_last(), old) + if row_has(v.last(), old) {
            1nat
        } else {
            0nat
        }
    }
}

spec fn op_has(o: Op, old: bool) -> bool {
    if old {
        !(o is Ins)
    } else {
        !(o is Del)
    }
}

spec fn op_count(v: Seq<Op>, old: bool) -> nat
    decreases v.len(),
{
    if v.len() == 0 {
        0
    } else {
        op_count(v.drop_last(), old) + if op_has(v.last(), old) {
            1nat
        } else {
            0nat
        }
    }
}

proof fn lemma_row_count_add(x: Seq<Row>, y: Seq<Row>, old: bool)
    ensures
        row_count(x + y, old) == row_count(x, old) + row_count(y, old),
    decreases y.len(),
{
    if y.len() == 0 {
        assert(x + y =~= x);
    } else {
        assert((x + y).drop_last() =~= x + y.drop_last());
        lemma_row_count_add(x, y.drop_last(), old);
    }
}

proof fn lemma_op_count_add(x: Seq<Op>, y: Seq<Op>, old: bool)
    ensures
        op_count(x + y, old) == op_count(x, old) + op_count(y, old),
    decreases y.len(),
{
    if y.len() == 0 {
        assert(x + y =~= x);
    } else {
        assert((x + y).drop_last() =~= x + y.drop_last());
        lemma_op_count_add(x, y.drop_last(), old);
    }
}

proof fn lemma_op_count_one(o: Op, old: bool)
    ensures
        op_count(seq![o], old) == (if op_has(o, old) { 1nat } else { 0nat }),
{
    assert(seq![o].drop_last() =~= Seq::<Op>::empty());
    assert(op_count(Seq::<Op>::empty(), old) == 0);
    assert(seq![o].last() == o);
}

proof fn lemma_row_count_one(r: Row, old: bool)
    ensures
        row_count(seq![r], old) == (if row_has(r, old) { 1nat } else { 0nat }),
{
    assert(seq![r].drop_last() =~= Seq::<Row>::empty());
    assert(row_count(Seq::<Row>::empty(), old) == 0);
    assert(seq![r].last() == r);
}

proof fn lemma_render_count(rows: Seq<Row>, ea: Seq<Seq<char>>, eb: Seq<Seq<char>>, old: bool)
    ensures
        side_count(render_rows(rows, ea, eb), old) == row_count(rows, old),
    decreases rows.len(),
{
    if rows.len() > 0 {
        assert(render_rows(rows, ea, eb).drop_last() =~= render_rows(rows.drop_last(), ea, eb));
        lemma_render_count(rows.drop_last(), ea, eb, old);
    }
}

proof fn lemma_dels(ops: Seq<Op>, k: int)
    requires
        0 <= k <= ops.len(),
    ensures
        k + dels_from(ops, k) <= ops.len(),
        forall|t: int| 0 <= t < dels_from(ops, k) ==> #[trigger] ops[k + t] is Del,
    decreases ops.len() - k,
{
    if k < ops.len() && ops[k] is Del {
        lemma_dels(ops, k + 1);
        assert forall|t: int| 0 <= t < dels_from(ops, k) implies #[trigger] ops[k + t] is Del by {
            if t > 0 {
                assert(ops[(k + 1) + (t - 1)] is Del);
            }
        }
    }
}

proof fn lemma_ins(ops: Seq<Op>, k: int)
    requires
        0 <= k <= ops.len(),
    ensures
        k + ins_from(ops, k) <= ops.len(),
        forall|t: int| 0 <= t < ins_from(ops, k) ==> #[trigger] ops[k + t] is Ins,
    decreases ops.len() - k,
{
    if k < ops.len() && ops[k] is Ins {
        lemma_ins(ops, k + 1);
        assert forall|t: int| 0 <= t < ins_from(ops, k) implies #[trigger] ops[k + t] is Ins by {
            if t > 0 {
                assert(ops[(k + 1) + (t - 1)] is Ins);
            }
        }
    }
}

proof fn lemma_block_count(ops: Seq<Op>, k: int, d: nat, e: nat, t: int, old: bool)
    requires
        0 <= t <= (if d >= e { d } else { e }),
    ensures
        row_count(block(ops, k, d, e).take(t), old) == (if old {
            if t <= d { t } else { d as int }
        } else {
            if t <= e { t } else { e as int }
        }),
    decreases t,
{
    if t > 0 {
        assert(block(ops, k, d, e).take(t).drop_last() =~= block(ops, k, d, e).take(t - 1));
        lemma_block_count(ops, k, d, e, t - 1, old);
    }
}

proof fn lemma_run_count(ops: Seq<Op>, k: int, d: nat, e: nat, t: int, old: bool)
    requires
        0 <= k,
        k + d + e <= ops.len(),
        0 <= t <= d + e,
        forall|q: int| 0 <= q < d ==> #[trigger] ops[k + q] is Del,
        forall|q: int| 0 <= q < e ==> #[trigger] ops[k + d + q] is Ins,
    ensures
        op_count(ops.subrange(k, k + t), old) == (if old {
            if t <= d { t } else { d as int }
        } else {
            if t <= d { 0 } else { t - d }
        }),
    decreases t,
{
    if t > 0 {
        assert(ops.subrange(k, k + t).drop_last() =~= ops.subrange(k, k + t - 1));
        lemma_run_count(ops, k, d, e, t - 1, old);
        if t - 1 >= d {
            assert(ops[k + d + (t - 1 - d)] is Ins);
        } else {
            assert(ops[k + (t - 1)] is Del);
        }
    }
}

proof fn lemma_rows_count(ops: Seq<Op>, k: int, old: bool)
    requires
        0 <= k <= ops.len(),
    ensures
        row_count(rows_from(ops, k), old) == op_count(ops.skip(k), old),
    decreases ops.len() - k,
{
    if k == ops.len() {
        assert(ops.skip(k) =~= Seq::<Op>::empty());
    } else {
        match ops[k] {
            Op::Del(_) => {
                let d = dels_from(ops, k);
                let e = ins_from(ops, k + d);
                lemma_dels(ops, k);
                lemma_ins(ops, k + d);
                lemma_rows_count(ops, k + d + e, old);
                let blk = block(ops, k, d, e);
                lemma_row_count_add(blk, rows_from(ops, k + d + e), old);
                lemma_block_count(ops, k, d, e, blk.len() as int, old);
                assert(blk.take(blk.len() as int) =~= blk);
                assert(ops.skip(k) =~= ops.subrange(k, k + d + e) + ops.skip(k + d + e));
                lemma_op_count_add(ops.subrange(k, k + d + e), ops.skip(k + d + e), old);
                assert forall|q: int| 0 <= q < e implies #[trigger] ops[k + d + q] is Ins by {
                    assert(ops[(k + d) + q] is Ins);
                }
                lemma_run_count(ops, k, d, e, (d + e) as int, old);
            },
            _ => {
                lemma_rows_count(ops, k + 1, old);
                let r = rows_from(ops, k);
                assert(r == seq![r[0]] + rows_from(ops, k + 1));
                lemma_row_count_add(seq![r[0]], rows_from(ops, k + 1), old);
                lemma_row_count_one(r[0], old);
                assert(ops.skip(k) =~= seq![ops[k]] + ops.skip(k + 1));
                lemma_op_count_add(seq![ops[k]], ops.skip(k + 1), old);
                lemma_op_count_one(ops[k], old);
            },
        }
    }
}

proof fn lemma_script_count(a: Seq<Seq<char>>, b: Seq<Seq<char>>, i: int, j: int, old: bool)
    requires
        0 <= i <= a.len(),
        0 <= j <= b.len(),
    ensures
        op_count(script(a, b, i, j), old) == (if old { a.len() - i } else { b.len() - j }),
    decreases a.len() - i + b.len() - j,
{
    if i >= a.len() && j >= b.len() {
    } else {
        let s = script(a, b, i, j);
        let (ni, nj) = if i >= a.len() {
            (i, j + 1)
        } else if j >= b.len() {
            (i + 1, j)
        } else if a[i] == b[j] {
            (i + 1, j + 1)
        } else if lcs(a, b, i + 1, j) >= lcs(a, b, i, j + 1) {
            (i + 1, j)
        } else {
            (i, j + 1)
        };
        assert(s == seq![s[0]] + script(a, b, ni, nj));
        lemma_script_count(a, b, ni, nj, old);
        lemma_op_count_add(seq![s[0]], script(a, b, ni, nj), old);
        lemma_op_count_one(s[0], old);
    }
}

/// Each line of the old text shows up in exactly as many rows as the old
/// text has lines, and likewise for the new text.
pub proof fn lemma_every_line_shown(old: Seq<char>, new: Seq<char>, w: nat)
    ensures
        side_count(side_by_side(old, new, w), true) == lines_of(old).len(),
        side_count(side_by_side(old, new, w), false) == lines_of(new).len(),
{
    let ea = crate::diff_algo::expanded(lines_of(old), w);
    let eb = crate::diff_algo::expanded(lines_of(new), w);
    let ops = script(ea, eb, 0, 0);
    assert(ops.skip(0) =~= ops);
    lemma_render_count(rows_from(ops, 0), ea, eb, true);
    lemma_render_count(rows_from(ops, 0), ea, eb, false);
    lemma_rows_count(ops, 0, true);
    lemma_rows_count(ops, 0, false);
    lemma_script_count(ea, eb, 0, 0, true);
    lemma_script_count(ea, eb, 0, 0, false);
}


/// Variant 0, 1, 2: a common line, a deletion, an insertion.
spec fn op_kind(o: Op, kind: int) -> bool {
    match o {
        Op::Same(_, _) => kind == 0,
        Op::Del(_) => kind == 1,
        Op::Ins(_) => kind == 2,
    }
}

spec fn kind_change(kind: int) -> ChangeType {
    if kind == 0 {
        ChangeType::Equal
    } else if kind == 1 {
        ChangeType::Delete
    } else {
        ChangeType::Insert
    }
}

proof fn lemma_rows_uniform(ops: Seq<Op>, k: int, kind: int)
    requires
        0 <= k <= ops.len(),
        forall|t: int| k <= t < ops.len() ==> op_kind(#[trigger] ops[t], kind),
    ensures
        forall|t: int|
            0 <= t < rows_from(ops, k).len() ==> (#[trigger] rows_from(ops, k)[t]).change
                == kind_change(kind),
    decreases ops.len() - k,
{
    if k < ops.len() {
        match ops[k] {
            Op::Del(_) => {
                let d = dels_from(ops, k);
                lemma_dels(ops, k);
                if k + d < ops.len() {
                    assert(op_kind(ops[k + d], kind));
                }
                assert(ins_from(ops, k + d) == 0);
                lemma_rows_uniform(ops, k + d, kind);
                let blk = block(ops, k, d, 0);
                assert(rows_from(ops, k) == blk + rows_from(ops, k + d));
                assert forall|t: int| 0 <= t < rows_from(ops, k).len() implies (#[trigger] rows_from(
                    ops,
                    k,
                )[t]).change == kind_change(kind) by {
                    if t >= blk.len() {
                        assert(rows_from(ops, k)[t] == rows_from(ops, k + d)[t - blk.len()]);
                    }
                }
            },
            _ => {
                lemma_rows_uniform(ops, k + 1, kind);
                let r = rows_from(ops, k);
                assert forall|t: int| 0 <= t < r.len() implies (#[trigger] r[t]).change
                    == kind_change(kind) by {
                    if t > 0 {
                        assert(r[t] == rows_from(ops, k + 1)[t - 1]);
                    }
                }
            },
        }
    }
}

proof fn lemma_script_same(a: Seq<Seq<char>>, i: int)
    requires
        0 <= i <= a.len(),
    ensures
        forall|t: int| 0 <= t < script(a, a, i, i).len() ==> op_kind(#[trigger] script(a, a, i, i)[t], 0),
    decreases a.len() - i,
{
    if i < a.len() {
        lemma_script_same(a, i + 1);
        let s = script(a, a, i, i);
        assert forall|t: int| 0 <= t < s.len() implies op_kind(#[trigger] s[t], 0) by {
            if t > 0 {
                assert(s[t] == script(a, a, i + 1, i + 1)[t - 1]);
            }
        }
    }
}

proof fn lemma_script_ins(a: Seq<Seq<char>>, b: Seq<Seq<char>>, j: int)
    requires
        a.len() == 0,
        0 <= j <= b.len(),
    ensures
        forall|t: int| 0 <= t < script(a, b, 0, j).len() ==> op_kind(#[trigger] script(a, b, 0, j)[t], 2),
    decreases b.len() - j,
{
    if j < b.len() {
        lemma_script_ins(a, b, j + 1);
        let s = script(a, b, 0, j);
        assert forall|t: int| 0 <= t < s.len() implies op_kind(#[trigger] s[t], 2) by {
            if t > 0 {
                assert(s[t] == script(a, b, 0, j + 1)[t - 1]);
            }
        }
    }
}

proof fn lemma_script_del(a: Seq<Seq<char>>, b: Seq<Seq<char>>, i: int)
    requires
        b.len() == 0,
        0 <= i <= a.len(),
    ensures
        forall|t: int| 0 <= t < script(a, b, i, 0).len() ==> op_kind(#[trigger] script(a, b, i, 0)[t], 1),
    decreases a.len() - i,
{
    if i < a.len() {
        lemma_script_del(a, b, i + 1);
        let s = script(a, b, i, 0);
        assert forall|t: int| 0 <= t < s.len() implies op_kind(#[trigger] s[t], 1) by {
            if t > 0 {
                assert(s[t] == script(a, b, i + 1, 0)[t - 1]);
            }
        }
    }
}

proof fn lemma_no_hunks(v: Seq<LineView>, k: int)
    requires
        0 <= k <= v.len(),
        forall|t: int| 0 <= t < v.len() ==> (#[trigger] v[t]).change == ChangeType::Equal,
    ensures
        hunk_starts_upto(v, k).len() == 0,
    decreases k,
{
    if k > 0 {
        lemma_no_hunks(v, k - 1);
        assert(!is_hunk_start(v, k - 1));
    }
}

proof fn lemma_lines_of_empty()
    ensures
        lines_of(Seq::<char>::empty()).len() == 0,
{
    assert(crate::text::split_on(Seq::<char>::empty(), '\n') == seq![Seq::<char>::empty()]);
}

/// Two identical texts align with every row `Equal`, and so with no hunk.
pub proof fn lemma_identical_all_equal(text: Seq<char>, w: nat)
    ensures
        forall|k: int|
            0 <= k < side_by_side(text, text, w).len() ==> (#[trigger] side_by_side(
                text,
                text,
                w,
            )[k]).change == ChangeType::Equal,
        hunk_starts(side_by_side(text, text, w)).len() == 0,
{
    let a = crate::diff_algo::expanded(lines_of(text), w);
    lemma_script_same(a, 0);
    lemma_rows_uniform(script(a, a, 0, 0), 0, 0);
    let v = side_by_side(text, text, w);
    assert forall|k: int| 0 <= k < v.len() implies (#[trigger] v[k]).change == ChangeType::Equal by {
        assert(v[k] == render(rows_from(script(a, a, 0, 0), 0)[k], a, a));
    }
    lemma_no_hunks(v, v.len() as int);
}

/// An empty old text aligns with every row an insertion.
pub proof fn lemma_added_all_insert(new: Seq<char>, w: nat)
    ensures
        forall|k: int|
            0 <= k < side_by_side(Seq::<char>::empty(), new, w).len() ==> (#[trigger] side_by_side(
                Seq::<char>::empty(),
                new,
                w,
            )[k]).change == ChangeType::Insert,
{
    let a = crate::diff_algo::expanded(lines_of(Seq::<char>::empty()), w);
    let b = crate::diff_algo::expanded(lines_of(new), w);
    lemma_lines_of_empty();
    lemma_script_ins(a, b, 0);
    lemma_rows_uniform(script(a, b, 0, 0), 0, 2);
    let v = side_by_side(Seq::<char>::empty(), new, w);
    assert forall|k: int| 0 <= k < v.len() implies (#[trigger] v[k]).change == ChangeType::Insert by {
        assert(v[k] == render(rows_from(script(a, b, 0, 0), 0)[k], a, b));
    }
}

/// An empty new text aligns with every row a deletion.
pub proof fn lemma_deleted_all_delete(old: Seq<char>, w: nat)
    ensures
        forall|k: int|
            0 <= k < side_by_side(old, Seq::<char>::empty(), w).len() ==> (#[trigger] side_by_side(
                old,
                Seq::<char>::empty(),
                w,
            )[k]).change == ChangeType::Delete,
{
    let a = crate::diff_algo::expanded(lines_of(old), w);
    let b = crate::diff_algo::expanded(lines_of(Seq::<char>::empty()), w);
    lemma_lines_of_empty();
    lemma_script_del(a, b, 0);
    lemma_rows_uniform(script(a, b, 0, 0), 0, 1);
    let v = side_by_side(old, Seq::<char>::empty(), w);
    assert forall|k: int| 0 <= k < v.len() implies (#[trigger] v[k]).change == ChangeType::Delete by {
        assert(v[k] == render(rows_from(script(a, b, 0, 0), 0)[k], a, b));
    }
}


/// How many rows are `Equal`.
pub open spec fn equal_rows(v: Seq<LineView>) -> nat
    decreases v.len(),
{
    if v.len() == 0 {
        0
    } else {
        equal_rows(v.drop_last()) + if v.last().change == ChangeType::Equal {
            1nat
        } else {
            0nat
        }
    }
}

spec fn eq_row_count(v: Seq<Row>) -> nat
    decreases v.len(),
{
    if v.len() == 0 {
        0
    } else {
        eq_row_count(v.drop_last()) + if v.last().change == ChangeType::Equal {
            1nat
        } else {
            0nat
        }
    }
}

spec fn same_count(v: Seq<Op>) -> nat
    decreases v.len(),
{
    if v.len() == 0 {
        0
    } else {
        same_count(v.drop_last()) + if v.last() is Same {
            1nat
        } else {
            0nat
        }
    }
}

proof fn lemma_eq_row_count_add(x: Seq<Row>, y: Seq<Row>)
    ensures
        eq_row_count(x + y) == eq_row_count(x) + eq_row_count(y),
    decreases y.len(),
{
    if y.len() == 0 {
        assert(x + y =~= x);
    } else {
        assert((x + y).drop_last() =~= x + y.drop_last());
        lemma_eq_row_count_add(x, y.drop_last());
    }
}

proof fn lemma_same_count_add(x: Seq<Op>, y: Seq<Op>)
    ensures
        same_count(x + y) == same_count(x) + same_count(y),
    decreases y.len(),
{
    if y.len() == 0 {
        assert(x + y =~= x);
    } else {
        assert((x + y).drop_last() =~= x + y.drop_last());
        lemma_same_count_add(x, y.drop_last());
    }
}

proof fn lemma_no_equal_rows(v: Seq<Row>)
    requires
        forall|t: int| 0 <= t < v.len() ==> (#[trigger] v[t]).change != ChangeType::Equal,
    ensures
        eq_row_count(v) == 0,
    decreases v.len(),
{
    if v.len() > 0 {
        lemma_no_equal_rows(v.drop_last());
    }
}

proof fn lemma_no_same(v: Seq<Op>)
    requires
        forall|t: int| 0 <= t < v.len() ==> !(#[trigger] v[t] is Same),
    ensures
        same_count(v) == 0,
    decreases v.len(),
{
    if v.len() > 0 {
        lemma_no_same(v.drop_last());
    }
}

proof fn lemma_render_equal(rows: Seq<Row>, ea: Seq<Seq<char>>, eb: Seq<Seq<char>>)
    ensures
        equal_rows(render_rows(rows, ea, eb)) == eq_row_count(rows),
    decreases rows.len(),
{
    if rows.len() > 0 {
        assert(render_rows(rows, ea, eb).drop_last() =~= render_rows(rows.drop_last(), ea, eb));
        lemma_render_equal(rows.drop_last(), ea, eb);
    }
}

proof fn lemma_rows_equal(ops: Seq<Op>, k: int)
    requires
        0 <= k <= ops.len(),
    ensures
        eq_row_count(rows_from(ops, k)) == same_count(ops.skip(k)),
    decreases ops.len() - k,
{
    if k == ops.len() {
        assert(ops.skip(k) =~= Seq::<Op>::empty());
    } else {
        match ops[k] {
            Op::Del(_) => {
                let d = dels_from(ops, k);
                let e = ins_from(ops, k + d);
                lemma_dels(ops, k);
                lemma_ins(ops, k + d);
                lemma_rows_equal(ops, k + d + e);
                let blk = block(ops, k, d, e);
                lemma_eq_row_count_add(blk, rows_from(ops, k + d + e));
                lemma_no_equal_rows(blk);
                assert(ops.skip(k) =~= ops.subrange(k, k + d + e) + ops.skip(k + d + e));
                lemma_same_count_add(ops.subrange(k, k + d + e), ops.skip(k + d + e));
                assert forall|t: int| 0 <= t < d + e implies !(#[trigger] ops.subrange(k, k + d + e)[t] is Same) by {
                    if t < d {
                        assert(ops[k + t] is Del);
                    } else {
                        assert(ops[(k + d) + (t - d)] is Ins);
                    }
                }
                lemma_no_same(ops.subrange(k, k + d + e));
            },
            _ => {
                lemma_rows_equal(ops, k + 1);
                let r = rows_from(ops, k);
                assert(r == seq![r[0]] + rows_from(ops, k + 1));
                lemma_eq_row_count_add(seq![r[0]], rows_from(ops, k + 1));
                assert(seq![r[0]].drop_last() =~= Seq::<Row>::empty());
                assert(eq_row_count(Seq::<Row>::empty()) == 0);
                assert(ops.skip(k) =~= seq![ops[k]] + ops.skip(k + 1));
                lemma_same_count_add(seq![ops[k]], ops.skip(k + 1));
                assert(seq![ops[k]].drop_last() =~= Seq::<Op>::empty());
                assert(same_count(Seq::<Op>::empty()) == 0);
            },
        }
    }
}

proof fn lemma_script_same_count(a: Seq<Seq<char>>, b: Seq<Seq<char>>, i: int, j: int)
    requires
        0 <= i <= a.len(),
        0 <= j <= b.len(),
    ensures
        same_count(script(a, b, i, j)) == lcs(a, b, i, j),
        forall|t: int|
            0 <= t < script(a, b, i, j).len() ==> match #[trigger] script(a, b, i, j)[t] {
                Op::Same(x, y) => 0 <= x < a.len() && 0 <= y < b.len() && a[x] == b[y],
                _ => true,
            },
    decreases a.len() - i + b.len() - j,
{
    if i >= a.len() && j >= b.len() {
    } else {
        let s = script(a, b, i, j);
        let (ni, nj) = if i >= a.len() {
            (i, j + 1)
        } else if j >= b.len() {
            (i + 1, j)
        } else if a[i] == b[j] {
            (i + 1, j + 1)
        } else if lcs(a, b, i + 1, j) >= lcs(a, b, i, j + 1) {
            (i + 1, j)
        } else {
            (i, j + 1)
        };
        assert(s == seq![s[0]] + script(a, b, ni, nj));
        lemma_script_same_count(a, b, ni, nj);
        lemma_same_count_add(seq![s[0]], script(a, b, ni, nj));
        assert(seq![s[0]].drop_last() =~= Seq::<Op>::empty());
        assert(same_count(Seq::<Op>::empty()) == 0);
        assert forall|t: int| 0 <= t < s.len() implies match #[trigger] s[t] {
            Op::Same(x, y) => 0 <= x < a.len() && 0 <= y < b.len() && a[x] == b[y],
            _ => true,
        } by {
            if t > 0 {
                assert(s[t] == script(a, b, ni, nj)[t - 1]);
            }
        }
    }
}

proof fn lemma_equal_rows_match(ops: Seq<Op>, k: int, a: Seq<Seq<char>>, b: Seq<Seq<char>>)
    requires
        0 <= k <= ops.len(),
        forall|t: int|
            0 <= t < ops.len() ==> match #[trigger] ops[t] {
                Op::Same(x, y) => 0 <= x < a.len() && 0 <= y < b.len() && a[x] == b[y],
                _ => true,
            },
    ensures
        forall|t: int|
            0 <= t < rows_from(ops, k).len() && (#[trigger] rows_from(ops, k)[t]).change
                == ChangeType::Equal ==> {
                &&& rows_from(ops, k)[t].old matches Some(x) && 0 <= x < a.len()
                &&& rows_from(ops, k)[t].new matches Some(y) && 0 <= y < b.len()
                &&& a[rows_from(ops, k)[t].old->0] == b[rows_from(ops, k)[t].new->0]
            },
    decreases ops.len() - k,
{
    if k < ops.len() {
        let r = rows_from(ops, k);
        match ops[k] {
            Op::Del(_) => {
                let d = dels_from(ops, k);
                let e = ins_from(ops, k + d);
                lemma_dels(ops, k);
                lemma_ins(ops, k + d);
                lemma_equal_rows_match(ops, k + d + e, a, b);
                let blk = block(ops, k, d, e);
                assert(r == blk + rows_from(ops, k + d + e));
                assert forall|t: int|
                    0 <= t < r.len() && (#[trigger] r[t]).change == ChangeType::Equal implies {
                    &&& r[t].old matches Some(x) && 0 <= x < a.len()
                    &&& r[t].new matches Some(y) && 0 <= y < b.len()
                    &&& a[r[t].old->0] == b[r[t].new->0]
                } by {
                    assert(t >= blk.len());
                    assert(r[t] == rows_from(ops, k + d + e)[t - blk.len()]);
                }
            },
            _ => {
                lemma_equal_rows_match(ops, k + 1, a, b);
                assert forall|t: int|
                    0 <= t < r.len() && (#[trigger] r[t]).change == ChangeType::Equal implies {
                    &&& r[t].old matches Some(x) && 0 <= x < a.len()
                    &&& r[t].new matches Some(y) && 0 <= y < b.len()
                    &&& a[r[t].old->0] == b[r[t].new->0]
                } by {
                    if t > 0 {
                        assert(r[t] == rows_from(ops, k + 1)[t - 1]);
                    } else {
                        assert(ops[k] is Same);
                    }
                }
            },
        }
    }
}

/// The `Equal` rows of an alignment face lines that are identical once
/// tabs are expanded, and there are as many of them as a longest common
/// subsequence of the two expanded line sequences has lines.
pub proof fn lemma_equal_rows_are_lcs(old: Seq<char>, new: Seq<char>, w: nat)
    ensures
        equal_rows(side_by_side(old, new, w)) == lcs(
            crate::diff_algo::expanded(lines_of(old), w),
            crate::diff_algo::expanded(lines_of(new), w),
            0,
            0,
        ),
        forall|k: int|
            0 <= k < side_by_side(old, new, w).len() && (#[trigger] side_by_side(old, new, w)[k]).change
                == ChangeType::Equal ==> {
                &&& side_by_side(old, new, w)[k].old_line matches Some(o)
                &&& side_by_side(old, new, w)[k].new_line matches Some(n)
                &&& 1 <= o.0 <= lines_of(old).len()
                &&& 1 <= n.0 <= lines_of(new).len()
                &&& o.1 == n.1
                &&& expand_tabs(lines_of(old)[o.0 - 1], w) == expand_tabs(lines_of(new)[n.0 - 1], w)
            },
{
    let a = crate::diff_algo::expanded(lines_of(old), w);
    let b = crate::diff_algo::expanded(lines_of(new), w);
    let ops = script(a, b, 0, 0);
    assert(ops.skip(0) =~= ops);
    lemma_render_equal(rows_from(ops, 0), a, b);
    lemma_rows_equal(ops, 0);
    lemma_script_same_count(a, b, 0, 0);
    lemma_equal_rows_match(ops, 0, a, b);
    let v = side_by_side(old, new, w);
    assert forall|k: int|
        0 <= k < v.len() && (#[trigger] v[k]).change == ChangeType::Equal implies {
        &&& v[k].old_line matches Some(o)
        &&& v[k].new_line matches Some(n)
        &&& 1 <= o.0 <= lines_of(old).len()
        &&& 1 <= n.0 <= lines_of(new).len()
        &&& o.1 == n.1
        &&& expand_tabs(lines_of(old)[o.0 - 1], w) == expand_tabs(lines_of(new)[n.0 - 1], w)
    } by {
        assert(v[k] == render(rows_from(ops, 0)[k], a, b));
    }
}

/// Which sides a row shows follows from its kind: both for `Equal` and
/// `Modified`, the old one alone for `Delete`, the new one alone for `Insert`.
pub open spec fn shape_ok(v: LineView) -> bool {
    match v.change {
        ChangeType::Equal => v.old_line is Some && v.new_line is Some,
        ChangeType::Modified => v.old_line is Some && v.new_line is Some,
        ChangeType::Delete => v.old_line is Some && v.new_line is None,
        ChangeType::Insert => v.old_line is None && v.new_line is Some,
    }
}

spec fn row_shape(r: Row) -> bool {
    match r.change {
        ChangeType::Equal => r.old is Some && r.new is Some,
        ChangeType::Modified => r.old is Some && r.new is Some,
        ChangeType::Delete => r.old is Some && r.new is None,
        ChangeType::Insert => r.old is None && r.new is Some,
    }
}

proof fn lemma_rows_shape(ops: Seq<Op>, k: int)
    requires
        0 <= k <= ops.len(),
    ensures
        forall|t: int| 0 <= t < rows_from(ops, k).len() ==> row_shape(#[trigger] rows_from(ops, k)[t]),
    decreases ops.len() - k,
{
    if k < ops.len() {
        let r = rows_from(ops, k);
        match ops[k] {
            Op::Del(_) => {
                let d = dels_from(ops, k);
                let e = ins_from(ops, k + d);
                lemma_dels(ops, k);
                lemma_ins(ops, k + d);
                lemma_rows_shape(ops, k + d + e);
                let blk = block(ops, k, d, e);
                assert(r == blk + rows_from(ops, k + d + e));
                assert forall|t: int| 0 <= t < r.len() implies row_shape(#[trigger] r[t]) by {
                    if t >= blk.len() {
                        assert(r[t] == rows_from(ops, k + d + e)[t - blk.len()]);
                    }
                }
            },
            _ => {
                lemma_rows_shape(ops, k + 1);
                assert forall|t: int| 0 <= t < r.len() implies row_shape(#[trigger] r[t]) by {
                    if t > 0 {
                        assert(r[t] == rows_from(ops, k + 1)[t - 1]);
                    }
                }
            },
        }
    }
}

/// Every row of an alignment shows the sides that its kind says.
pub proof fn lemma_kinds_match_sides(old: Seq<char>, new: Seq<char>, w: nat)
    ensures
        forall|k: int|
            0 <= k < side_by_side(old, new, w).len() ==> shape_ok(
                #[trigger] side_by_side(old, new, w)[k],
            ),
{
    let a = crate::diff_algo::expanded(lines_of(old), w);
    let b = crate::diff_algo::expanded(lines_of(new), w);
    let ops = script(a, b, 0, 0);
    lemma_rows_shape(ops, 0);
    let v = side_by_side(old, new, w);
    assert forall|k: int| 0 <= k < v.len() implies shape_ok(#[trigger] v[k]) by {
        assert(v[k] == render(rows_from(ops, 0)[k], a, b));
        assert(row_shape(rows_from(ops, 0)[k]));
    }
}

} // verus!
