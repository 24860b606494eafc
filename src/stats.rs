//! Line counts and labels shown in the footer.
use vstd::prelude::*;
use crate::diff_algo::{lines_view, side_by_side, DiffLine, LineView};
use crate::laws_align::{
    equal_rows, lemma_every_line_shown, lemma_kinds_match_sides, shape_ok, side_count,
};
use crate::text::{chars_of, lines_of, push_char};
use crate::types::ChangeType;

verus! {

/// How many lines a diff adds and removes.
#[derive(Clone, Copy, Debug, PartialEq, Eq, Structural)]
pub struct LineStats {
    pub added: usize,
    pub removed: usize,
}

/// Lines added by the first `k` rows: insertions and modifications.
pub open spec fn added_upto(v: Seq<LineView>, k: int) -> int
    decreases k,
{
    if k <= 0 {
        0
    } else {
        added_upto(v, k - 1) + if v[k - 1].change == ChangeType::Insert || v[k - 1].change
            == ChangeType::Modified {
            1int
        } else {
            0int
        }
    }
}

/// Lines removed by the first `k` rows: deletions and modifications.
pub open spec fn removed_upto(v: Seq<LineView>, k: int) -> int
    decreases k,
{
    if k <= 0 {
        0
    } else {
        removed_upto(v, k - 1) + if v[k - 1].change == ChangeType::Delete || v[k - 1].change
            == ChangeType::Modified {
            1int
        } else {
            0int
        }
    }
}

proof fn lemma_counts_bounded(v: Seq<LineView>, k: int)
    requires
        0 <= k,
    ensures
        0 <= added_upto(v, k) <= k,
        0 <= removed_upto(v, k) <= k,
    decreases k,
{
    if k > 0 {
        lemma_counts_bounded(v, k - 1);
    }
}

/// Counts the lines that `side_by_side` adds and removes; a modified row
/// counts as one of each.
pub fn compute_line_stats(side_by_side: &[DiffLine]) -> (r: LineStats)
    ensures
        r.added as int == added_upto(lines_view(side_by_side@), side_by_side@.len() as int),
        r.removed as int == removed_upto(lines_view(side_by_side@), side_by_side@.len() as int),
{
    let ghost v = lines_view(side_by_side@);
    let mut added: usize = 0;
    let mut removed: usize = 0;
    let mut k: usize = 0;
    while k < side_by_side.len()
        invariant
            k <= side_by_side.len(),
            v == lines_view(side_by_side@),
            added as int == added_upto(v, k as int),
            removed as int == removed_upto(v, k as int),
        decreases side_by_side.len() - k,
    {
        proof {
            lemma_counts_bounded(v, k as int);
        }
        assert(v[k as int] == side_by_side@[k as int]@);
        match side_by_side[k].change_type {
            ChangeType::Insert => {
                added = added + 1;
            },
            ChangeType::Delete => {
                removed = removed + 1;
            },
            ChangeType::Modified => {
                added = added + 1;
                removed = removed + 1;
            },
            ChangeType::Equal => {},
        }
        k = k + 1;
    }
    LineStats { added, removed }
}

/// `s` cut to at most `max_len` characters: kept whole when it fits; its
/// first `max_len` characters when `max_len` is under 5; else its first and
/// last `(max_len - 3) / 2` characters around `...`.
pub open spec fn truncated(s: Seq<char>, max_len: int) -> Seq<char> {
    if s.len() <= max_len {
        s
    } else if max_len < 5 {
        s.take(max_len)
    } else {
        let half = (max_len - 3) / 2;
        s.take(half) + seq!['.', '.', '.'] + s.skip(s.len() - half)
    }
}

/// Shortens `s` in its middle so that it fits in `max_len` characters.
pub fn truncate_middle(s: &str, max_len: usize) -> (r: String)
    ensures
        r@ == truncated(s@, max_len as int),
{
    let cs = chars_of(s);
    let n = cs.len();
    let mut r = String::new();
    if n <= max_len {
        copy_range(&mut r, &cs, 0, n);
        assert(cs@.subrange(0, n as int) =~= cs@);
        return r;
    }
    if max_len < 5 {
        copy_range(&mut r, &cs, 0, max_len);
        assert(cs@.subrange(0, max_len as int) =~= cs@.take(max_len as int));
        return r;
    }
    let half = (max_len - 3) / 2;
    copy_range(&mut r, &cs, 0, half);
    push_char(&mut r, '.');
    push_char(&mut r, '.');
    push_char(&mut r, '.');
    copy_range(&mut r, &cs, n - half, n);
    assert(cs@.subrange(0, half as int) =~= cs@.take(half as int));
    assert(cs@.subrange(n - half, n as int) =~= cs@.skip(n - half));
    assert(r@ =~= cs@.take(half as int) + seq!['.', '.', '.'] + cs@.skip(n - half));
    r
}

fn copy_range(r: &mut String, cs: &Vec<char>, lo: usize, hi: usize)
    requires
        lo <= hi <= cs.len(),
    ensures
        final(r)@ == old(r)@ + cs@.subrange(lo as int, hi as int),
{
    let ghost start = r@;
    let mut k: usize = lo;
    while k < hi
        invariant
            lo <= k <= hi <= cs.len(),
            r@ == start + cs@.subrange(lo as int, k as int),
        decreases hi - k,
    {
        push_char(r, cs[k]);
        assert(cs@.subrange(lo as int, k + 1) =~= cs@.subrange(lo as int, k as int).push(cs@[k as int]));
        k = k + 1;
    }
}

proof fn lemma_counts_by_side(v: Seq<LineView>, k: int)
    requires
        0 <= k <= v.len(),
        forall|t: int| 0 <= t < v.len() ==> shape_ok(#[trigger] v[t]),
    ensures
        removed_upto(v, k) + equal_rows(v.take(k)) == side_count(v.take(k), true),
        added_upto(v, k) + equal_rows(v.take(k)) == side_count(v.take(k), false),
    decreases k,
{
    if k > 0 {
        lemma_counts_by_side(v, k - 1);
        assert(v.take(k).drop_last() =~= v.take(k - 1));
        assert(v.take(k).last() == v[k - 1]);
        assert(shape_ok(v[k - 1]));
    } else {
        assert(v.take(0) =~= Seq::<LineView>::empty());
    }
}

/// Over an alignment of `old` and `new`, the removed lines and the `Equal`
/// rows together count the lines of `old`; the added lines and the `Equal`
/// rows count the lines of `new`.
pub proof fn lemma_stats_count_lines(old: Seq<char>, new: Seq<char>, w: nat)
    ensures
        removed_upto(side_by_side(old, new, w), side_by_side(old, new, w).len() as int) + equal_rows(
            side_by_side(old, new, w),
        ) == lines_of(old).len(),
        added_upto(side_by_side(old, new, w), side_by_side(old, new, w).len() as int) + equal_rows(
            side_by_side(old, new, w),
        ) == lines_of(new).len(),
{
    let v = side_by_side(old, new, w);
    lemma_kinds_match_sides(old, new, w);
    lemma_every_line_shown(old, new, w);
    lemma_counts_by_side(v, v.len() as int);
    assert(v.take(v.len() as int) =~= v);
}

} // verus!
