//! What every sidebar keeps: one file entry per file, whatever the order.
use vstd::prelude::*;
use crate::tree::{
    entries_for, file_tree, files_info, insert_pos, lemma_insert_pos_range, lemma_sorted_range,
    names_of, sorted_order, sorted_upto, tree_upto, ItemView,
};
use crate::types::FileDiff;

verus! {

/// How many times `x` occurs in `s`.
pub open spec fn occurrences(s: Seq<int>, x: int) -> nat
    decreases s.len(),
{
    if s.len() == 0 {
        0
    } else {
        occurrences(s.drop_last(), x) + if s.last() == x {
            1nat
        } else {
            0nat
        }
    }
}

/// How many file entries of `v` point at file `i`.
pub open spec fn file_entries(v: Seq<ItemView>, i: int) -> nat
    decreases v.len(),
{
    if v.len() == 0 {
        0
    } else {
        file_entries(v.drop_last(), i) + if v.last() matches ItemView::File { index, .. } && index
            == i {
            1nat
        } else {
            0nat
        }
    }
}

proof fn lemma_occurrences_add(x: Seq<int>, y: Seq<int>, e: int)
    ensures
        occurrences(x + y, e) == occurrences(x, e) + occurrences(y, e),
    decreases y.len(),
{
    if y.len() == 0 {
        assert(x + y =~= x);
    } else {
        assert((x + y).drop_last() =~= x + y.drop_last());
        lemma_occurrences_add(x, y.drop_last(), e);
    }
}

proof fn lemma_entries_add(x: Seq<ItemView>, y: Seq<ItemView>, e: int)
    ensures
        file_entries(x + y, e) == file_entries(x, e) + file_entries(y, e),
    decreases y.len(),
{
    if y.len() == 0 {
        assert(x + y =~= x);
    } else {
        assert((x + y).drop_last() =~= x + y.drop_last());
        lemma_entries_add(x, y.drop_last(), e);
    }
}

proof fn lemma_sorted_occurrences(names: Seq<Seq<char>>, k: int, e: int)
    requires
        0 <= k,
    ensures
        occurrences(sorted_upto(names, k), e) == (if 0 <= e < k { 1nat } else { 0nat }),
    decreases k,
{
    if k == 0 {
    } else {
        lemma_sorted_occurrences(names, k - 1, e);
        let o = sorted_upto(names, k - 1);
        let p = insert_pos(o, names, k - 1, 0);
        lemma_insert_pos_range(o, names, k - 1, 0);
        assert(o.insert(p, k - 1) =~= o.take(p) + seq![k - 1] + o.skip(p));
        assert(o =~= o.take(p) + o.skip(p));
        lemma_occurrences_add(o.take(p), o.skip(p), e);
        lemma_occurrences_add(o.take(p) + seq![k - 1], o.skip(p), e);
        lemma_occurrences_add(o.take(p), seq![k - 1], e);
        assert(seq![k - 1].drop_last() =~= Seq::<int>::empty());
        assert(occurrences(Seq::<int>::empty(), e) == 0);
        assert(seq![k - 1].last() == k - 1);
        assert(occurrences(seq![k - 1], e) == (if k - 1 == e { 1nat } else { 0nat }));
        assert(sorted_upto(names, k) == o.insert(p, k - 1));
        assert(occurrences(o, e) == occurrences(o.take(p), e) + occurrences(o.skip(p), e));
    }
}

proof fn lemma_entries_for_one(
    files: Seq<(Seq<char>, crate::types::FileStatus)>,
    order: Seq<int>,
    k: int,
    e: int,
)
    ensures
        file_entries(entries_for(files, order, k), e) == (if order[k] == e { 1nat } else { 0nat }),
{
    let v = entries_for(files, order, k);
    let dirs = v.drop_last();
    assert(file_entries(dirs, e) == 0) by {
        lemma_no_file_entries(dirs, e);
    }
}

proof fn lemma_no_file_entries(v: Seq<ItemView>, e: int)
    requires
        forall|t: int| 0 <= t < v.len() ==> (#[trigger] v[t]) is Directory,
    ensures
        file_entries(v, e) == 0,
    decreases v.len(),
{
    if v.len() > 0 {
        lemma_no_file_entries(v.drop_last(), e);
    }
}

proof fn lemma_tree_entries(
    files: Seq<(Seq<char>, crate::types::FileStatus)>,
    order: Seq<int>,
    k: int,
    e: int,
)
    requires
        0 <= k <= order.len(),
    ensures
        file_entries(tree_upto(files, order, k), e) == occurrences(order.take(k), e),
    decreases k,
{
    if k == 0 {
        assert(order.take(0) =~= Seq::<int>::empty());
    } else {
        lemma_tree_entries(files, order, k - 1, e);
        lemma_entries_add(tree_upto(files, order, k - 1), entries_for(files, order, k - 1), e);
        lemma_entries_for_one(files, order, k - 1, e);
        assert(order.take(k).drop_last() =~= order.take(k - 1));
    }
}

/// Two lists of files with the same paths and statuses give the same sidebar.
pub proof fn lemma_tree_deterministic(a: Seq<FileDiff>, b: Seq<FileDiff>)
    requires
        files_info(a) == files_info(b),
    ensures
        file_tree(files_info(a)) == file_tree(files_info(b)),
{
}

/// The sidebar of `files` holds exactly one file entry for each position
/// of `files`, and none for any other index.
pub proof fn lemma_one_entry_per_file(files: Seq<FileDiff>, i: int)
    ensures
        file_entries(file_tree(files_info(files)), i) == (if 0 <= i < files.len() {
            1nat
        } else {
            0nat
        }),
{
    let fi = files_info(files);
    let nm = names_of(fi);
    let o = sorted_order(nm);
    assert(nm.len() == files.len());
    lemma_sorted_occurrences(nm, nm.len() as int, i);
    lemma_sorted_range(nm, nm.len() as int);
    lemma_tree_entries(fi, o, files.len() as int, i);
    assert(o.take(files.len() as int) =~= o);
}

} // verus!
